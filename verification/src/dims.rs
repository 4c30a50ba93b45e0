//! Index algebra for strided tensor layouts: dimension products, stride dot
//! products, row-major flattening, and the lemmas relating them.

use vstd::prelude::*;

verus! {

/// A sequence of `usize` values seen as mathematical integers.
pub open spec fn ints(v: Seq<usize>) -> Seq<int> {
    v.map_values(|x: usize| x as int)
}

/// Product of all dimension sizes; 1 for the empty (rank-0) shape.
pub open spec fn prod(dims: Seq<int>) -> int
    decreases dims.len(),
{
    if dims.len() == 0 {
        1
    } else {
        dims[0] * prod(dims.skip(1))
    }
}

/// Dot product of a coordinate vector with a stride vector.
pub open spec fn dot(c: Seq<int>, s: Seq<int>) -> int
    decreases c.len(),
{
    if c.len() == 0 {
        0
    } else {
        c[0] * s[0] + dot(c.skip(1), s.skip(1))
    }
}

/// Whether `c` is a valid coordinate vector for the shape `dims`.
pub open spec fn coords_in(c: Seq<int>, dims: Seq<int>) -> bool {
    &&& c.len() == dims.len()
    &&& forall|j: int| 0 <= j < c.len() ==> 0 <= #[trigger] c[j] < dims[j]
}

/// Row-major (lexicographic) linear position of coordinates `c` in shape `dims`.
pub open spec fn flat_of(c: Seq<int>, dims: Seq<int>) -> int
    decreases c.len(),
{
    if c.len() == 0 {
        0
    } else {
        c[0] * prod(dims.skip(1)) + flat_of(c.skip(1), dims.skip(1))
    }
}

/// The canonical row-major strides of a shape: each entry is the product of
/// the dimension sizes that follow it.
pub open spec fn row_major(dims: Seq<int>) -> Seq<int>
    decreases dims.len(),
{
    if dims.len() == 0 {
        Seq::empty()
    } else {
        seq![prod(dims.skip(1))] + row_major(dims.skip(1))
    }
}

/// Linear storage position of coordinates `c` under strides `s` and a start offset.
pub open spec fn phys(off: int, c: Seq<int>, s: Seq<int>) -> int {
    off + dot(c, s)
}

/// Every suffix product of the shape fits in a `usize`: the bound needed so
/// that element counts and row-major strides can be computed without overflow.
pub open spec fn suffix_ok(dims: Seq<int>) -> bool {
    forall|k: int| 0 <= k <= dims.len() ==> #[trigger] prod(dims.skip(k)) <= usize::MAX
}

pub proof fn lemma_prod_nonneg(dims: Seq<int>)
    requires
        forall|j: int| 0 <= j < dims.len() ==> #[trigger] dims[j] >= 0,
    ensures
        prod(dims) >= 0,
    decreases dims.len(),
{
    if dims.len() > 0 {
        lemma_prod_nonneg(dims.skip(1));
        assert(dims[0] * prod(dims.skip(1)) >= 0) by (nonlinear_arith)
            requires
                dims[0] >= 0,
                prod(dims.skip(1)) >= 0,
        ;
    }
}

/// For nonnegative dimension sizes, the element count is positive exactly
/// when every dimension size is.
pub proof fn lemma_prod_pos_iff(dims: Seq<int>)
    requires
        forall|j: int| 0 <= j < dims.len() ==> #[trigger] dims[j] >= 0,
    ensures
        prod(dims) > 0 <==> (forall|j: int| 0 <= j < dims.len() ==> #[trigger] dims[j] > 0),
    decreases dims.len(),
{
    if dims.len() > 0 {
        lemma_prod_pos_iff(dims.skip(1));
        lemma_prod_nonneg(dims.skip(1));
        assert forall|j: int| 0 <= j < dims.skip(1).len() implies #[trigger] dims.skip(1)[j]
            >= 0 by {
            assert(dims.skip(1)[j] == dims[j + 1]);
        }
        let p = prod(dims.skip(1));
        assert(dims[0] * p > 0 <==> dims[0] > 0 && p > 0) by (nonlinear_arith)
            requires
                dims[0] >= 0,
                p >= 0,
        ;
        if dims[0] > 0 && p > 0 {
            assert forall|j: int| 0 <= j < dims.len() implies #[trigger] dims[j] > 0 by {
                if j > 0 {
                    assert(dims.skip(1)[j - 1] == dims[j]);
                }
            }
        }
    }
}

/// Shrinking dimension sizes pointwise can only shrink the element count.
pub proof fn lemma_prod_le(a: Seq<int>, b: Seq<int>)
    requires
        a.len() == b.len(),
        forall|j: int| 0 <= j < a.len() ==> 0 <= #[trigger] a[j] <= b[j],
    ensures
        prod(a) <= prod(b),
    decreases a.len(),
{
    if a.len() > 0 {
        lemma_prod_le(a.skip(1), b.skip(1));
        lemma_prod_nonneg(a.skip(1));
        assert(a[0] * prod(a.skip(1)) <= b[0] * prod(b.skip(1))) by (nonlinear_arith)
            requires
                0 <= a[0] <= b[0],
                0 <= prod(a.skip(1)) <= prod(b.skip(1)),
        ;
    }
}

pub proof fn lemma_row_major_len(dims: Seq<int>)
    ensures
        row_major(dims).len() == dims.len(),
    decreases dims.len(),
{
    if dims.len() > 0 {
        lemma_row_major_len(dims.skip(1));
    }
}

/// The row-major flattening of valid coordinates is the dot product with the
/// canonical row-major strides.
pub proof fn lemma_flat_dot(c: Seq<int>, dims: Seq<int>)
    requires
        c.len() == dims.len(),
    ensures
        flat_of(c, dims) == dot(c, row_major(dims)),
    decreases c.len(),
{
    lemma_row_major_len(dims);
    if c.len() > 0 {
        lemma_row_major_len(dims.skip(1));
        lemma_flat_dot(c.skip(1), dims.skip(1));
        assert(row_major(dims)[0] == prod(dims.skip(1)));
        assert(row_major(dims).skip(1) =~= row_major(dims.skip(1)));
    }
}

/// Valid coordinates flatten to a position inside the element count.
pub proof fn lemma_flat_bound(c: Seq<int>, dims: Seq<int>)
    requires
        coords_in(c, dims),
    ensures
        0 <= flat_of(c, dims) < prod(dims),
    decreases c.len(),
{
    if c.len() > 0 {
        assert forall|j: int| 0 <= j < c.skip(1).len() implies 0 <= #[trigger] c.skip(1)[j]
            < dims.skip(1)[j] by {
            assert(c.skip(1)[j] == c[j + 1]);
            assert(dims.skip(1)[j] == dims[j + 1]);
        }
        lemma_flat_bound(c.skip(1), dims.skip(1));
        let p = prod(dims.skip(1));
        assert(0 <= c[0] * p && c[0] * p + p <= dims[0] * p) by (nonlinear_arith)
            requires
                0 <= c[0] < dims[0],
                p > 0,
        ;
    }
}

pub proof fn lemma_dot_nonneg(c: Seq<int>, s: Seq<int>)
    requires
        c.len() == s.len(),
        forall|j: int| 0 <= j < c.len() ==> #[trigger] c[j] >= 0,
        forall|j: int| 0 <= j < s.len() ==> #[trigger] s[j] >= 0,
    ensures
        dot(c, s) >= 0,
    decreases c.len(),
{
    if c.len() > 0 {
        assert forall|j: int| 0 <= j < c.skip(1).len() implies #[trigger] c.skip(1)[j] >= 0 by {
            assert(c.skip(1)[j] == c[j + 1]);
        }
        assert forall|j: int| 0 <= j < s.skip(1).len() implies #[trigger] s.skip(1)[j] >= 0 by {
            assert(s.skip(1)[j] == s[j + 1]);
        }
        lemma_dot_nonneg(c.skip(1), s.skip(1));
        assert(c[0] * s[0] >= 0) by (nonlinear_arith)
            requires
                c[0] >= 0,
                s[0] >= 0,
        ;
    }
}

/// Extending a partial dot product by one more position.
pub proof fn lemma_dot_take_step(c: Seq<int>, s: Seq<int>, j: int)
    requires
        c.len() == s.len(),
        0 <= j < c.len(),
    ensures
        dot(c.take(j + 1), s.take(j + 1)) == dot(c.take(j), s.take(j)) + c[j] * s[j],
    decreases j,
{
    if j == 0 {
        assert(c.take(0).len() == 0);
        assert(dot(c.take(0), s.take(0)) == 0);
        assert(c.take(1)[0] == c[0] && s.take(1)[0] == s[0]);
        assert(c.take(1).skip(1).len() == 0);
        assert(dot(c.take(1).skip(1), s.take(1).skip(1)) == 0);
        assert(dot(c.take(1), s.take(1)) == c[0] * s[0] + dot(
            c.take(1).skip(1),
            s.take(1).skip(1),
        ));
    } else {
        lemma_dot_take_step(c.skip(1), s.skip(1), j - 1);
        assert(c.take(j + 1)[0] == c[0] && s.take(j + 1)[0] == s[0]);
        assert(c.take(j)[0] == c[0] && s.take(j)[0] == s[0]);
        assert(c.take(j + 1).len() == j + 1 && c.take(j).len() == j);
        assert(c.take(j + 1).skip(1) =~= c.skip(1).take(j));
        assert(s.take(j + 1).skip(1) =~= s.skip(1).take(j));
        assert(c.take(j).skip(1) =~= c.skip(1).take(j - 1));
        assert(s.take(j).skip(1) =~= s.skip(1).take(j - 1));
        assert(c.skip(1)[j - 1] == c[j] && s.skip(1)[j - 1] == s[j]);
    }
}

/// A full-length prefix is the whole dot product.
pub proof fn lemma_dot_take_all(c: Seq<int>, s: Seq<int>)
    requires
        c.len() == s.len(),
    ensures
        dot(c.take(c.len() as int), s.take(s.len() as int)) == dot(c, s),
{
    assert(c.take(c.len() as int) =~= c);
    assert(s.take(s.len() as int) =~= s);
}

/// With nonnegative entries, partial dot products never exceed the whole.
pub proof fn lemma_dot_take_le(c: Seq<int>, s: Seq<int>, j: int)
    requires
        c.len() == s.len(),
        0 <= j <= c.len(),
        forall|i: int| 0 <= i < c.len() ==> #[trigger] c[i] >= 0,
        forall|i: int| 0 <= i < s.len() ==> #[trigger] s[i] >= 0,
    ensures
        dot(c.take(j), s.take(j)) <= dot(c, s),
    decreases c.len() - j,
{
    if j == c.len() {
        lemma_dot_take_all(c, s);
    } else {
        lemma_dot_take_step(c, s, j);
        lemma_dot_take_le(c, s, j + 1);
        assert(c[j] * s[j] >= 0) by (nonlinear_arith)
            requires
                c[j] >= 0,
                s[j] >= 0,
        ;
    }
}

/// Changing one coordinate changes the dot product by the scaled difference.
pub proof fn lemma_dot_update(c: Seq<int>, s: Seq<int>, j: int, v: int)
    requires
        c.len() == s.len(),
        0 <= j < c.len(),
    ensures
        dot(c.update(j, v), s) == dot(c, s) + (v - c[j]) * s[j],
    decreases j,
{
    if j == 0 {
        assert(c.update(0, v)[0] == v);
        assert(c.update(0, v).skip(1) =~= c.skip(1));
        assert(v * s[0] - c[0] * s[0] == (v - c[0]) * s[0]) by (nonlinear_arith);
    } else {
        lemma_dot_update(c.skip(1), s.skip(1), j - 1, v);
        assert(c.update(j, v).skip(1) =~= c.skip(1).update(j - 1, v));
        assert(c.update(j, v)[0] == c[0]);
        assert(c.skip(1)[j - 1] == c[j] && s.skip(1)[j - 1] == s[j]);
    }
}

/// Two stride vectors agree on a dot product when they agree wherever the
/// coordinate is nonzero.
pub proof fn lemma_dot_eq_on_support(c: Seq<int>, s1: Seq<int>, s2: Seq<int>)
    requires
        c.len() == s1.len(),
        c.len() == s2.len(),
        forall|j: int| 0 <= j < c.len() ==> #[trigger] c[j] == 0 || s1[j] == s2[j],
    ensures
        dot(c, s1) == dot(c, s2),
    decreases c.len(),
{
    if c.len() > 0 {
        assert forall|j: int| 0 <= j < c.skip(1).len() implies #[trigger] c.skip(1)[j] == 0
            || s1.skip(1)[j] == s2.skip(1)[j] by {
            assert(c.skip(1)[j] == c[j + 1]);
            assert(s1.skip(1)[j] == s1[j + 1]);
            assert(s2.skip(1)[j] == s2[j + 1]);
        }
        lemma_dot_eq_on_support(c.skip(1), s1.skip(1), s2.skip(1));
        assert(c[0] == 0 || s1[0] == s2[0]);
        if c[0] == 0 {
            assert(c[0] * s1[0] == 0 && c[0] * s2[0] == 0) by (nonlinear_arith)
                requires
                    c[0] == 0,
            ;
        }
    }
}

/// The greatest valid coordinates flatten to the last position.
pub proof fn lemma_flat_max(dims: Seq<int>)
    requires
        forall|j: int| 0 <= j < dims.len() ==> #[trigger] dims[j] >= 1,
    ensures
        flat_of(dims.map_values(|d: int| d - 1), dims) == prod(dims) - 1,
    decreases dims.len(),
{
    let c = dims.map_values(|d: int| d - 1);
    if dims.len() > 0 {
        assert forall|j: int| 0 <= j < dims.skip(1).len() implies #[trigger] dims.skip(1)[j]
            >= 1 by {
            assert(dims.skip(1)[j] == dims[j + 1]);
        }
        lemma_flat_max(dims.skip(1));
        assert(c.skip(1) =~= dims.skip(1).map_values(|d: int| d - 1));
        let p = prod(dims.skip(1));
        lemma_prod_nonneg(dims.skip(1));
        assert((dims[0] - 1) * p + p == dims[0] * p) by (nonlinear_arith);
    }
}

} // verus!

verus! {

/// Leading dimension size of a shape; 0 at rank 0, where it is never used.
pub open spec fn head(dims: Seq<int>) -> int {
    if dims.len() == 0 {
        0
    } else {
        dims[0]
    }
}

/// The elements of a strided view in row-major logical order, restricted to
/// the first `k` slices along the leading dimension. At rank 0 the view is
/// the single element at the start offset.
pub open spec fn flat_rows(st: Seq<i64>, dims: Seq<int>, s: Seq<int>, off: int, k: int) -> Seq<i64>
    decreases dims.len(), k,
{
    if dims.len() == 0 {
        seq![st[off]]
    } else if k <= 0 {
        Seq::empty()
    } else {
        flat_rows(st, dims, s, off, k - 1) + flat_rows(
            st,
            dims.skip(1),
            s.skip(1),
            off + (k - 1) * s[0],
            head(dims.skip(1)),
        )
    }
}

/// All elements of a strided view in row-major logical order.
pub open spec fn flat_all(st: Seq<i64>, dims: Seq<int>, s: Seq<int>, off: int) -> Seq<i64> {
    flat_rows(st, dims, s, off, head(dims))
}

pub proof fn lemma_flat_rows_len(st: Seq<i64>, dims: Seq<int>, s: Seq<int>, off: int, k: int)
    requires
        forall|j: int| 0 <= j < dims.len() ==> #[trigger] dims[j] >= 0,
        0 <= k,
    ensures
        flat_rows(st, dims, s, off, k).len() == if dims.len() == 0 {
            1int
        } else {
            k * prod(dims.skip(1))
        },
    decreases dims.len(), k,
{
    if dims.len() == 0 {
    } else {
        assert forall|j: int| 0 <= j < dims.skip(1).len() implies #[trigger] dims.skip(1)[j]
            >= 0 by {
            assert(dims.skip(1)[j] == dims[j + 1]);
        }
        if k == 0 {
            assert(0 * prod(dims.skip(1)) == 0) by (nonlinear_arith);
        } else {
            lemma_flat_rows_len(st, dims, s, off, k - 1);
            let d2 = dims.skip(1);
            let inner = flat_rows(st, d2, s.skip(1), off + (k - 1) * s[0], head(d2));
            if d2.len() == 0 {
                assert(inner.len() == 1 && prod(d2) == 1);
            } else {
                assert(head(d2) >= 0);
                lemma_flat_rows_len(st, d2, s.skip(1), off + (k - 1) * s[0], head(d2));
                assert(inner.len() == d2[0] * prod(d2.skip(1)));
                assert(d2[0] * prod(d2.skip(1)) == prod(d2));
            }
            assert((k - 1) * prod(d2) + prod(d2) == k * prod(d2)) by (nonlinear_arith);
        }
    }
}

pub proof fn lemma_flat_all_len(st: Seq<i64>, dims: Seq<int>, s: Seq<int>, off: int)
    requires
        forall|j: int| 0 <= j < dims.len() ==> #[trigger] dims[j] >= 0,
    ensures
        flat_all(st, dims, s, off).len() == prod(dims),
{
    if dims.len() == 0 {
    } else {
        lemma_flat_rows_len(st, dims, s, off, dims[0]);
    }
}

proof fn lemma_flat_rows_index(
    st: Seq<i64>,
    dims: Seq<int>,
    s: Seq<int>,
    off: int,
    k: int,
    b: int,
    r: int,
)
    requires
        dims.len() >= 1,
        s.len() == dims.len(),
        forall|j: int| 0 <= j < dims.len() ==> #[trigger] dims[j] >= 0,
        0 <= b < k,
        0 <= r < prod(dims.skip(1)),
    ensures
        flat_rows(st, dims, s, off, k)[b * prod(dims.skip(1)) + r] == flat_all(
            st,
            dims.skip(1),
            s.skip(1),
            off + b * s[0],
        )[r],
    decreases k,
{
    let d2 = dims.skip(1);
    let p = prod(d2);
    assert forall|j: int| 0 <= j < d2.len() implies #[trigger] d2[j] >= 0 by {
        assert(d2[j] == dims[j + 1]);
    }
    lemma_flat_rows_len(st, dims, s, off, k - 1);
    lemma_flat_all_len(st, d2, s.skip(1), off + (k - 1) * s[0]);
    if b == k - 1 {
        assert(flat_rows(st, dims, s, off, k) == flat_rows(st, dims, s, off, k - 1) + flat_all(
            st,
            d2,
            s.skip(1),
            off + (k - 1) * s[0],
        ));
        assert(b * p + r - (k - 1) * p == r) by (nonlinear_arith)
            requires
                b == k - 1,
        ;
    } else {
        lemma_flat_rows_index(st, dims, s, off, k - 1, b, r);
        assert(b * p + r < (k - 1) * p) by (nonlinear_arith)
            requires
                0 <= b < k - 1,
                0 <= r < p,
        ;
    }
}

/// Indexing the row-major view at the flattening of valid coordinates reads
/// the element at those coordinates' storage position.
pub proof fn lemma_flat_index(st: Seq<i64>, dims: Seq<int>, s: Seq<int>, off: int, c: Seq<int>)
    requires
        s.len() == dims.len(),
        coords_in(c, dims),
    ensures
        flat_all(st, dims, s, off)[flat_of(c, dims)] == st[phys(off, c, s)],
    decreases dims.len(),
{
    if dims.len() == 0 {
        assert(c.len() == 0);
    } else {
        let d2 = dims.skip(1);
        let ct = c.skip(1);
        let b = c[0];
        assert forall|j: int| 0 <= j < ct.len() implies 0 <= #[trigger] ct[j] < d2[j] by {
            assert(ct[j] == c[j + 1]);
            assert(d2[j] == dims[j + 1]);
        }
        assert forall|j: int| 0 <= j < dims.len() implies #[trigger] dims[j] >= 0 by {
            assert(0 <= c[j] < dims[j]);
        }
        lemma_flat_bound(ct, d2);
        lemma_flat_rows_index(st, dims, s, off, dims[0], b, flat_of(ct, d2));
        lemma_flat_index(st, d2, s.skip(1), off + b * s[0], ct);
    }
}

/// Row-major views of two strided layouts with one shape are equal when the
/// two read equal elements at every valid coordinate.
proof fn lemma_flat_rows_congr(
    st1: Seq<i64>,
    s1: Seq<int>,
    off1: int,
    st2: Seq<i64>,
    s2: Seq<int>,
    off2: int,
    dims: Seq<int>,
    k: int,
)
    requires
        s1.len() == dims.len(),
        s2.len() == dims.len(),
        dims.len() >= 1 ==> k <= dims[0],
        dims.len() == 0 ==> st1[off1] == st2[off2],
        forall|c: Seq<int>|
            coords_in(c, dims) && (dims.len() >= 1 ==> c[0] < k) ==> #[trigger] st1[phys(
                off1,
                c,
                s1,
            )] == st2[phys(off2, c, s2)],
    ensures
        flat_rows(st1, dims, s1, off1, k) == flat_rows(st2, dims, s2, off2, k),
    decreases dims.len(), k,
{
    if dims.len() == 0 {
        let c = Seq::<int>::empty();
        assert(coords_in(c, dims));
        assert(st1[phys(off1, c, s1)] == st2[phys(off2, c, s2)]);
        assert(phys(off1, c, s1) == off1 && phys(off2, c, s2) == off2);
    } else if k <= 0 {
    } else {
        lemma_flat_rows_congr(st1, s1, off1, st2, s2, off2, dims, k - 1);
        let d2 = dims.skip(1);
        let o1 = off1 + (k - 1) * s1[0];
        let o2 = off2 + (k - 1) * s2[0];
        assert forall|ct: Seq<int>|
            coords_in(ct, d2) && (d2.len() >= 1 ==> ct[0] < head(d2)) implies #[trigger] st1[phys(
            o1,
            ct,
            s1.skip(1),
        )] == st2[phys(o2, ct, s2.skip(1))] by {
            let c = seq![k - 1] + ct;
            assert forall|j: int| 0 <= j < c.len() implies 0 <= #[trigger] c[j] < dims[j] by {
                if j == 0 {
                } else {
                    assert(c[j] == ct[j - 1]);
                    assert(d2[j - 1] == dims[j]);
                }
            }
            assert(coords_in(c, dims));
            assert(st1[phys(off1, c, s1)] == st2[phys(off2, c, s2)]);
            assert(c.skip(1) =~= ct);
            assert(dot(c, s1) == (k - 1) * s1[0] + dot(ct, s1.skip(1)));
            assert(dot(c, s2) == (k - 1) * s2[0] + dot(ct, s2.skip(1)));
        }
        if d2.len() >= 1 {
            assert(head(d2) <= d2[0]);
        } else {
            let ce = Seq::<int>::empty();
            assert(coords_in(ce, d2));
            assert(st1[phys(o1, ce, s1.skip(1))] == st2[phys(o2, ce, s2.skip(1))]);
            assert(phys(o1, ce, s1.skip(1)) == o1 && phys(o2, ce, s2.skip(1)) == o2);
        }
        lemma_flat_rows_congr(st1, s1.skip(1), o1, st2, s2.skip(1), o2, d2, head(d2));
    }
}

/// Two views with one shape that agree elementwise at every valid coordinate
/// have one row-major view.
pub proof fn lemma_flat_all_congr(
    st1: Seq<i64>,
    s1: Seq<int>,
    off1: int,
    st2: Seq<i64>,
    s2: Seq<int>,
    off2: int,
    dims: Seq<int>,
)
    requires
        s1.len() == dims.len(),
        s2.len() == dims.len(),
        forall|c: Seq<int>|
            coords_in(c, dims) ==> #[trigger] st1[phys(off1, c, s1)] == st2[phys(off2, c, s2)],
    ensures
        flat_all(st1, dims, s1, off1) == flat_all(st2, dims, s2, off2),
{
    if dims.len() == 0 {
        let c = Seq::<int>::empty();
        assert(coords_in(c, dims));
        assert(st1[phys(off1, c, s1)] == st2[phys(off2, c, s2)]);
        assert(phys(off1, c, s1) == off1 && phys(off2, c, s2) == off2);
    }
    lemma_flat_rows_congr(st1, s1, off1, st2, s2, off2, dims, head(dims));
}

proof fn lemma_flat_rows_contig(st: Seq<i64>, dims: Seq<int>, off: int, k: int)
    requires
        forall|j: int| 0 <= j < dims.len() ==> #[trigger] dims[j] >= 0,
        0 <= k,
        dims.len() >= 1 ==> k <= dims[0],
        0 <= off,
        off + (if dims.len() == 0 {
            1int
        } else {
            k * prod(dims.skip(1))
        }) <= st.len(),
    ensures
        flat_rows(st, dims, row_major(dims), off, k) == st.subrange(
            off,
            off + (if dims.len() == 0 {
                1int
            } else {
                k * prod(dims.skip(1))
            }),
        ),
    decreases dims.len(), k,
{
    lemma_row_major_len(dims);
    if dims.len() == 0 {
        assert(seq![st[off]] =~= st.subrange(off, off + 1));
    } else {
        let d2 = dims.skip(1);
        let p = prod(d2);
        assert forall|j: int| 0 <= j < d2.len() implies #[trigger] d2[j] >= 0 by {
            assert(d2[j] == dims[j + 1]);
        }
        lemma_prod_nonneg(d2);
        if k == 0 {
            assert(0 * p == 0) by (nonlinear_arith);
            assert(Seq::<i64>::empty() =~= st.subrange(off, off));
        } else {
            assert((k - 1) * p + p == k * p && (k - 1) * p >= 0) by (nonlinear_arith)
                requires
                    k >= 1,
                    p >= 0,
            ;
            lemma_flat_rows_contig(st, dims, off, k - 1);
            let o2 = off + (k - 1) * p;
            assert(row_major(dims)[0] == p);
            assert(row_major(dims).skip(1) =~= row_major(d2));
            if d2.len() >= 1 {
                assert(head(d2) == d2[0]);
                assert(d2[0] * prod(d2.skip(1)) == p);
            }
            lemma_flat_rows_contig(st, d2, o2, head(d2));
            assert(st.subrange(off, o2) + st.subrange(o2, off + k * p) =~= st.subrange(
                off,
                off + k * p,
            ));
        }
    }
}

/// The row-major view of a canonically strided (contiguous) layout is the
/// storage slice starting at its offset.
pub proof fn lemma_flat_contig(st: Seq<i64>, dims: Seq<int>, off: int)
    requires
        forall|j: int| 0 <= j < dims.len() ==> #[trigger] dims[j] >= 0,
        0 <= off,
        off + prod(dims) <= st.len(),
        dims.len() == 0 ==> off < st.len(),
    ensures
        flat_all(st, dims, row_major(dims), off) == st.subrange(off, off + prod(dims)),
{
    if dims.len() == 0 {
        lemma_flat_rows_contig(st, dims, off, 0);
        assert(flat_all(st, dims, row_major(dims), off) == flat_rows(
            st,
            dims,
            row_major(dims),
            off,
            0,
        ));
    } else {
        lemma_flat_rows_contig(st, dims, off, dims[0]);
        assert(dims[0] * prod(dims.skip(1)) == prod(dims));
    }
}

} // verus!

verus! {

/// The coordinate (or stride) vector rearranged by a permutation: entry `j`
/// of the result is entry `p[j]` of the source.
pub open spec fn composed(c: Seq<int>, p: Seq<int>) -> Seq<int> {
    Seq::new(p.len(), |j: int| c[p[j]])
}

/// Whether `p` lists every index below `n` exactly once.
pub open spec fn is_perm(p: Seq<int>, n: int) -> bool {
    &&& p.len() == n
    &&& forall|j: int| 0 <= j < n ==> 0 <= #[trigger] p[j] < n
    &&& forall|i: int, j: int| 0 <= i < j < n ==> p[i] != p[j]
}

/// Removing one position from both vectors removes its term from the dot product.
pub proof fn lemma_dot_remove(c: Seq<int>, s: Seq<int>, j: int)
    requires
        c.len() == s.len(),
        0 <= j < c.len(),
    ensures
        dot(c, s) == c[j] * s[j] + dot(c.remove(j), s.remove(j)),
    decreases j,
{
    c.remove_ensures(j);
    s.remove_ensures(j);
    if j == 0 {
        assert(c.remove(0) =~= c.skip(1));
        assert(s.remove(0) =~= s.skip(1));
    } else {
        lemma_dot_remove(c.skip(1), s.skip(1), j - 1);
        assert(c.remove(j).skip(1) =~= c.skip(1).remove(j - 1));
        assert(s.remove(j).skip(1) =~= s.skip(1).remove(j - 1));
        assert(c.remove(j)[0] == c[0] && s.remove(j)[0] == s[0]);
        assert(c.skip(1)[j - 1] == c[j] && s.skip(1)[j - 1] == s[j]);
    }
}

/// A dot product is invariant under applying one permutation to both vectors.
pub proof fn lemma_dot_perm(c: Seq<int>, s: Seq<int>, p: Seq<int>)
    requires
        c.len() == s.len(),
        is_perm(p, c.len() as int),
    ensures
        dot(composed(c, p), composed(s, p)) == dot(c, s),
    decreases c.len(),
{
    let n = c.len() as int;
    if n > 0 {
        let j0 = p[0];
        let q = p.skip(1).map_values(|x: int| if x < j0 { x } else { x - 1 });
        let c2 = c.remove(j0);
        let s2 = s.remove(j0);
        c.remove_ensures(j0);
        s.remove_ensures(j0);
        assert forall|i: int| 0 <= i < n - 1 implies 0 <= #[trigger] q[i] < n - 1 by {
            assert(p.skip(1)[i] == p[i + 1]);
            assert(p[i + 1] != j0);
        }
        assert forall|i: int, j: int| 0 <= i < j < n - 1 implies q[i] != q[j] by {
            assert(p.skip(1)[i] == p[i + 1]);
            assert(p.skip(1)[j] == p[j + 1]);
            assert(p[i + 1] != p[j + 1]);
            assert(p[i + 1] != j0 && p[j + 1] != j0);
        }
        assert(is_perm(q, n - 1));
        assert(composed(c, p).skip(1) =~= composed(c2, q)) by {
            assert forall|i: int| 0 <= i < n - 1 implies composed(c, p).skip(1)[i] == composed(
                c2,
                q,
            )[i] by {
                assert(composed(c, p).skip(1)[i] == composed(c, p)[i + 1]);
                assert(composed(c, p)[i + 1] == c[p[i + 1]]);
                assert(p.skip(1)[i] == p[i + 1]);
                assert(p[i + 1] != j0);
                if p[i + 1] < j0 {
                    assert(c2[q[i]] == c[p[i + 1]]);
                } else {
                    assert(q[i] == p[i + 1] - 1);
                    assert(q[i] >= j0);
                    assert(c2[q[i]] == c[q[i] + 1]);
                }
            }
        }
        assert(composed(s, p).skip(1) =~= composed(s2, q)) by {
            assert forall|i: int| 0 <= i < n - 1 implies composed(s, p).skip(1)[i] == composed(
                s2,
                q,
            )[i] by {
                assert(composed(s, p).skip(1)[i] == composed(s, p)[i + 1]);
                assert(composed(s, p)[i + 1] == s[p[i + 1]]);
                assert(p.skip(1)[i] == p[i + 1]);
                assert(p[i + 1] != j0);
                if p[i + 1] < j0 {
                    assert(s2[q[i]] == s[p[i + 1]]);
                } else {
                    assert(q[i] == p[i + 1] - 1);
                    assert(q[i] >= j0);
                    assert(s2[q[i]] == s[q[i] + 1]);
                }
            }
        }
        lemma_dot_perm(c2, s2, q);
        lemma_dot_remove(c, s, j0);
        assert(composed(c, p)[0] == c[j0] && composed(s, p)[0] == s[j0]);
    }
}

} // verus!

verus! {

/// Extending a prefix product by one more dimension.
pub proof fn lemma_prefix_prod_step(d: Seq<int>, j: int)
    requires
        0 <= j < d.len(),
    ensures
        prod(d.take(j + 1)) == prod(d.take(j)) * d[j],
    decreases j,
{
    if j == 0 {
        assert(d.take(0).len() == 0);
        assert(prod(d.take(0)) == 1);
        assert(d.take(1)[0] == d[0]);
        assert(d.take(1).skip(1).len() == 0);
        assert(prod(d.take(1)) == d[0] * prod(d.take(1).skip(1)));
    } else {
        lemma_prefix_prod_step(d.skip(1), j - 1);
        assert(d.take(j + 1)[0] == d[0]);
        assert(d.take(j)[0] == d[0]);
        assert(d.take(j + 1).len() == j + 1 && d.take(j).len() == j);
        assert(d.take(j + 1).skip(1) =~= d.skip(1).take(j));
        assert(d.take(j).skip(1) =~= d.skip(1).take(j - 1));
        assert(d.skip(1)[j - 1] == d[j]);
        assert(d[0] * (prod(d.skip(1).take(j - 1)) * d[j]) == (d[0] * prod(
            d.skip(1).take(j - 1),
        )) * d[j]) by (nonlinear_arith);
    }
}

} // verus!

verus! {

/// A run of zero coordinates contributes nothing to a dot product.
pub proof fn lemma_dot_zero_left(s: Seq<int>, n: int)
    requires
        0 <= n <= s.len(),
    ensures
        dot(Seq::new(n as nat, |i: int| 0int), s.take(n)) == 0,
    decreases n,
{
    let z = Seq::new(n as nat, |i: int| 0int);
    if n > 0 {
        lemma_dot_zero_left(s.skip(1), n - 1);
        assert(z.skip(1) =~= Seq::new((n - 1) as nat, |i: int| 0int));
        assert(s.take(n).skip(1) =~= s.skip(1).take(n - 1));
        assert(z[0] * s.take(n)[0] == 0) by (nonlinear_arith)
            requires
                z[0] == 0,
        ;
    }
}

/// The storage position of a coordinate vector `[k, 0, 0, ...]` is the
/// offset plus `k` times the leading stride.
pub proof fn lemma_phys_head(s: Seq<int>, k: int)
    requires
        s.len() >= 1,
    ensures
        dot(seq![k] + Seq::new((s.len() - 1) as nat, |i: int| 0int), s) == k * s[0],
    decreases s.len(),
{
    let c = seq![k] + Seq::new((s.len() - 1) as nat, |i: int| 0int);
    assert(c[0] == k);
    assert(c.skip(1) =~= Seq::new((s.len() - 1) as nat, |i: int| 0int));
    lemma_dot_zero_left(s.skip(1), s.len() - 1 as int);
    assert(s.skip(1).take(s.len() - 1) =~= s.skip(1));
}

} // verus!

verus! {

/// Fixing the leading coordinate of a bounded view leaves a bounded view of
/// the remaining dimensions.
pub proof fn lemma_sub_bounds(d: Seq<int>, s: Seq<int>, off: int, n: int, k: int)
    requires
        d.len() >= 1,
        s.len() == d.len(),
        0 <= k < d[0],
        forall|c: Seq<int>| coords_in(c, d) ==> #[trigger] phys(off, c, s) < n,
    ensures
        forall|ct: Seq<int>|
            coords_in(ct, d.skip(1)) ==> #[trigger] phys(off + k * s[0], ct, s.skip(1)) < n,
{
    assert forall|ct: Seq<int>| coords_in(ct, d.skip(1)) implies #[trigger] phys(
        off + k * s[0],
        ct,
        s.skip(1),
    ) < n by {
        let c = seq![k] + ct;
        assert forall|j: int| 0 <= j < c.len() implies 0 <= #[trigger] c[j] < d[j] by {
            if j > 0 {
                assert(c[j] == ct[j - 1]);
                assert(d.skip(1)[j - 1] == d[j]);
            }
        }
        assert(coords_in(c, d));
        assert(c.skip(1) =~= ct);
        assert(dot(c, s) == k * s[0] + dot(ct, s.skip(1)));
        assert(phys(off, c, s) < n);
    }
}

/// The offset of the slice fixing the leading coordinate to `k` stays inside
/// a bounded view whose later dimensions are all nonempty.
pub proof fn lemma_head_offset_bound(d: Seq<int>, s: Seq<int>, off: int, n: int, k: int)
    requires
        d.len() >= 1,
        s.len() == d.len(),
        0 <= k < d[0],
        forall|j: int| 1 <= j < d.len() ==> #[trigger] d[j] >= 1,
        forall|c: Seq<int>| coords_in(c, d) ==> #[trigger] phys(off, c, s) < n,
    ensures
        off + k * s[0] < n,
{
    let zs = Seq::new((d.len() - 1) as nat, |i: int| 0int);
    let ck = seq![k] + zs;
    assert forall|j: int| 0 <= j < ck.len() implies 0 <= #[trigger] ck[j] < d[j] by {
        if j > 0 {
            assert(ck[j] == zs[j - 1] && zs[j - 1] == 0);
        }
    }
    assert(coords_in(ck, d));
    lemma_phys_head(s, k);
    assert(phys(off, ck, s) < n);
}

} // verus!

verus! {

/// A dimension size counted as at least one: degenerate and scalar axes
/// contribute no factor to storage extents.
pub open spec fn pos1(x: int) -> int {
    if x < 1 {
        1
    } else {
        x
    }
}

/// The product of all dimension sizes counted as at least one. Unlike the
/// element count it never collapses at a zero-sized axis, and it is
/// invariant under permuting the axes.
pub open spec fn pos_prod(dims: Seq<int>) -> int
    decreases dims.len(),
{
    if dims.len() == 0 {
        1
    } else {
        pos1(dims[0]) * pos_prod(dims.skip(1))
    }
}

/// A shape the machine can address: the product of its nonempty axes fits
/// in a `usize`. This bound survives every permutation of the axes and
/// implies that every suffix product fits.
pub open spec fn shape_ok(dims: Seq<int>) -> bool {
    pos_prod(dims) <= usize::MAX
}

pub proof fn lemma_pos_prod_pos(dims: Seq<int>)
    ensures
        pos_prod(dims) >= 1,
    decreases dims.len(),
{
    if dims.len() > 0 {
        lemma_pos_prod_pos(dims.skip(1));
        assert(pos1(dims[0]) * pos_prod(dims.skip(1)) >= 1) by (nonlinear_arith)
            requires
                pos1(dims[0]) >= 1,
                pos_prod(dims.skip(1)) >= 1,
        ;
    }
}

/// The element count never exceeds the positive product.
pub proof fn lemma_prod_le_pos_prod(dims: Seq<int>)
    requires
        forall|j: int| 0 <= j < dims.len() ==> #[trigger] dims[j] >= 0,
    ensures
        prod(dims) <= pos_prod(dims),
    decreases dims.len(),
{
    if dims.len() > 0 {
        assert forall|j: int| 0 <= j < dims.skip(1).len() implies #[trigger] dims.skip(1)[j]
            >= 0 by {
            assert(dims.skip(1)[j] == dims[j + 1]);
        }
        lemma_prod_le_pos_prod(dims.skip(1));
        lemma_prod_nonneg(dims.skip(1));
        lemma_pos_prod_pos(dims.skip(1));
        assert(dims[0] * prod(dims.skip(1)) <= pos1(dims[0]) * pos_prod(dims.skip(1)))
            by (nonlinear_arith)
            requires
                0 <= dims[0] <= pos1(dims[0]) || dims[0] == 0,
                dims[0] >= 0,
                pos1(dims[0]) >= 1,
                0 <= prod(dims.skip(1)) <= pos_prod(dims.skip(1)),
        ;
    }
}

/// Dropping leading axes never grows the positive product.
pub proof fn lemma_pos_prod_skip(dims: Seq<int>, k: int)
    requires
        0 <= k <= dims.len(),
    ensures
        pos_prod(dims.skip(k)) <= pos_prod(dims),
    decreases k,
{
    if k == 0 {
        assert(dims.skip(0) =~= dims);
    } else {
        lemma_pos_prod_skip(dims.skip(1), k - 1);
        assert(dims.skip(1).skip(k - 1) =~= dims.skip(k));
        lemma_pos_prod_pos(dims.skip(1));
        assert(pos_prod(dims.skip(1)) <= pos1(dims[0]) * pos_prod(dims.skip(1)))
            by (nonlinear_arith)
            requires
                pos1(dims[0]) >= 1,
                pos_prod(dims.skip(1)) >= 1,
        ;
    }
}

/// An addressable shape has every suffix product representable.
pub proof fn lemma_shape_ok_suffix(dims: Seq<int>)
    requires
        forall|j: int| 0 <= j < dims.len() ==> #[trigger] dims[j] >= 0,
        shape_ok(dims),
    ensures
        suffix_ok(dims),
{
    assert forall|k: int| 0 <= k <= dims.len() implies #[trigger] prod(dims.skip(k))
        <= usize::MAX by {
        assert forall|j: int| 0 <= j < dims.skip(k).len() implies #[trigger] dims.skip(k)[j]
            >= 0 by {
            assert(dims.skip(k)[j] == dims[j + k]);
        }
        lemma_prod_le_pos_prod(dims.skip(k));
        lemma_pos_prod_skip(dims, k);
    }
}

/// Shrinking dimension sizes pointwise never grows the positive product.
pub proof fn lemma_pos_prod_le(a: Seq<int>, b: Seq<int>)
    requires
        a.len() == b.len(),
        forall|j: int| 0 <= j < a.len() ==> #[trigger] a[j] <= b[j],
    ensures
        pos_prod(a) <= pos_prod(b),
    decreases a.len(),
{
    if a.len() > 0 {
        assert forall|j: int| 0 <= j < a.skip(1).len() implies #[trigger] a.skip(1)[j] <= b.skip(
            1,
        )[j] by {
            assert(a.skip(1)[j] == a[j + 1]);
            assert(b.skip(1)[j] == b[j + 1]);
        }
        lemma_pos_prod_le(a.skip(1), b.skip(1));
        lemma_pos_prod_pos(a.skip(1));
        assert(pos1(a[0]) * pos_prod(a.skip(1)) <= pos1(b[0]) * pos_prod(b.skip(1)))
            by (nonlinear_arith)
            requires
                1 <= pos1(a[0]) <= pos1(b[0]),
                1 <= pos_prod(a.skip(1)) <= pos_prod(b.skip(1)),
        ;
    }
}

/// Removing one axis divides the positive product by that axis's factor.
pub proof fn lemma_pos_prod_remove(dims: Seq<int>, j: int)
    requires
        0 <= j < dims.len(),
    ensures
        pos_prod(dims) == pos1(dims[j]) * pos_prod(dims.remove(j)),
    decreases j,
{
    dims.remove_ensures(j);
    if j == 0 {
        assert(dims.remove(0) =~= dims.skip(1));
    } else {
        lemma_pos_prod_remove(dims.skip(1), j - 1);
        assert(dims.remove(j).skip(1) =~= dims.skip(1).remove(j - 1));
        assert(dims.remove(j)[0] == dims[0]);
        assert(dims.skip(1)[j - 1] == dims[j]);
        assert(pos1(dims[0]) * (pos1(dims[j]) * pos_prod(dims.skip(1).remove(j - 1))) == pos1(
            dims[j],
        ) * (pos1(dims[0]) * pos_prod(dims.skip(1).remove(j - 1)))) by (nonlinear_arith);
    }
}

/// The positive product is invariant under permuting the axes.
pub proof fn lemma_pos_prod_perm(dims: Seq<int>, p: Seq<int>)
    requires
        is_perm(p, dims.len() as int),
    ensures
        pos_prod(composed(dims, p)) == pos_prod(dims),
    decreases dims.len(),
{
    let n = dims.len() as int;
    if n > 0 {
        let j0 = p[0];
        let q = p.skip(1).map_values(|x: int| if x < j0 { x } else { x - 1 });
        let d2 = dims.remove(j0);
        dims.remove_ensures(j0);
        assert forall|i: int| 0 <= i < n - 1 implies 0 <= #[trigger] q[i] < n - 1 by {
            assert(p.skip(1)[i] == p[i + 1]);
            assert(p[i + 1] != j0);
        }
        assert forall|i: int, j: int| 0 <= i < j < n - 1 implies q[i] != q[j] by {
            assert(p.skip(1)[i] == p[i + 1]);
            assert(p.skip(1)[j] == p[j + 1]);
            assert(p[i + 1] != p[j + 1]);
            assert(p[i + 1] != j0 && p[j + 1] != j0);
        }
        assert(is_perm(q, n - 1));
        assert(composed(dims, p).skip(1) =~= composed(d2, q)) by {
            assert forall|i: int| 0 <= i < n - 1 implies composed(dims, p).skip(1)[i] == composed(
                d2,
                q,
            )[i] by {
                assert(composed(dims, p).skip(1)[i] == composed(dims, p)[i + 1]);
                assert(composed(dims, p)[i + 1] == dims[p[i + 1]]);
                assert(p.skip(1)[i] == p[i + 1]);
                assert(p[i + 1] != j0);
                if p[i + 1] < j0 {
                    assert(d2[q[i]] == dims[p[i + 1]]);
                } else {
                    assert(q[i] == p[i + 1] - 1);
                    assert(q[i] >= j0);
                    assert(d2[q[i]] == dims[q[i] + 1]);
                }
            }
        }
        lemma_pos_prod_perm(d2, q);
        lemma_pos_prod_remove(dims, j0);
        assert(composed(dims, p)[0] == dims[j0]);
    }
}

} // verus!

verus! {

/// Every entry of a `usize` sequence, seen as integers, is nonnegative.
pub proof fn lemma_ints_nonneg(v: Seq<usize>)
    ensures
        forall|j: int| 0 <= j < v.len() ==> #[trigger] ints(v)[j] >= 0,
        ints(v).len() == v.len(),
{
}

/// Whether a source shape broadcasts to a target shape: aligned from the
/// trailing dimension, every source axis either matches the target axis or
/// is one element wide; new leading axes are free.
pub open spec fn broadcast_ok(src: Seq<int>, dst: Seq<int>) -> bool {
    &&& src.len() <= dst.len()
    &&& forall|j: int|
        0 <= j < src.len() ==> #[trigger] src[j] == dst[dst.len() - src.len() + j] || src[j] == 1
}

/// The source coordinates that a broadcast target coordinate reads: the
/// trailing coordinates of `c`, with broadcast (one-element) axes pinned to 0.
pub open spec fn bcast_src(c: Seq<int>, src: Seq<int>) -> Seq<int> {
    Seq::new(src.len(), |j: int| if src[j] == 1 { 0int } else { c[c.len() - src.len() + j] })
}

/// A dot product against broadcast strides (zero on new and broadcast axes)
/// reads the same storage position as the source coordinates do.
pub proof fn lemma_dot_broadcast(c: Seq<int>, ns: Seq<int>, s: Seq<int>, src: Seq<int>)
    requires
        c.len() == ns.len(),
        s.len() == src.len(),
        src.len() <= c.len(),
        forall|k: int| 0 <= k < c.len() - src.len() ==> #[trigger] ns[k] == 0,
        forall|j: int|
            0 <= j < src.len() ==> (#[trigger] src[j] == 1 && ns[c.len() - src.len() + j] == 0)
                || (ns[c.len() - src.len() + j] == s[j]),
        forall|j: int|
            0 <= j < src.len() && #[trigger] src[j] == 1 && ns[c.len() - src.len() + j] != 0
                ==> c[c.len() - src.len() + j] == 0,
    ensures
        dot(c, ns) == dot(bcast_src(c, src), s),
    decreases c.len(),
{
    let b = bcast_src(c, src);
    if c.len() == 0 {
        assert(b.len() == 0);
    } else if c.len() > src.len() {
        assert forall|k: int| 0 <= k < c.skip(1).len() - src.len() implies #[trigger] ns.skip(1)[k]
            == 0 by {
            assert(ns.skip(1)[k] == ns[k + 1]);
        }
        assert forall|j: int|
            0 <= j < src.len() implies (#[trigger] src[j] == 1 && ns.skip(1)[c.skip(1).len()
                - src.len() + j] == 0) || (ns.skip(1)[c.skip(1).len() - src.len() + j]
                == s[j]) by {
            assert(ns.skip(1)[c.len() - 1 - src.len() + j] == ns[c.len() - src.len() + j]);
        }
        assert forall|j: int|
            0 <= j < src.len() && #[trigger] src[j] == 1 && ns.skip(1)[c.skip(1).len() - src.len()
                + j] != 0 implies c.skip(1)[c.skip(1).len() - src.len() + j] == 0 by {
            assert(ns.skip(1)[c.len() - 1 - src.len() + j] == ns[c.len() - src.len() + j]);
            assert(c.skip(1)[c.len() - 1 - src.len() + j] == c[c.len() - src.len() + j]);
        }
        lemma_dot_broadcast(c.skip(1), ns.skip(1), s, src);
        assert(bcast_src(c.skip(1), src) =~= b);
        assert(ns[0] == 0);
        assert(c[0] * 0 == 0) by (nonlinear_arith);
    } else {
        if src.len() == 0 {
        } else {
            assert forall|j: int|
                0 <= j < src.skip(1).len() implies (#[trigger] src.skip(1)[j] == 1 && ns.skip(1)[
                c.skip(1).len() - src.skip(1).len() + j] == 0) || (ns.skip(1)[c.skip(1).len()
                - src.skip(1).len() + j] == s.skip(1)[j]) by {
                assert(src.skip(1)[j] == src[j + 1]);
                assert(ns.skip(1)[j] == ns[j + 1]);
                assert(s.skip(1)[j] == s[j + 1]);
            }
            assert forall|j: int|
                0 <= j < src.skip(1).len() && #[trigger] src.skip(1)[j] == 1 && ns.skip(1)[c.skip(
                    1,
                ).len() - src.skip(1).len() + j] != 0 implies c.skip(1)[c.skip(1).len() - src.skip(
                1,
            ).len() + j] == 0 by {
                assert(src.skip(1)[j] == src[j + 1]);
                assert(ns.skip(1)[j] == ns[j + 1]);
                assert(c.skip(1)[j] == c[j + 1]);
            }
            lemma_dot_broadcast(c.skip(1), ns.skip(1), s.skip(1), src.skip(1));
            assert(bcast_src(c.skip(1), src.skip(1)) =~= b.skip(1)) by {
                assert forall|j: int|
                    0 <= j < src.len() - 1 implies bcast_src(c.skip(1), src.skip(1))[j] == b.skip(
                    1,
                )[j] by {
                    assert(b.skip(1)[j] == b[j + 1]);
                    assert(src.skip(1)[j] == src[j + 1]);
                    if src[j + 1] != 1 {
                        assert(c.skip(1)[j] == c[j + 1]);
                    }
                }
            }
            if src[0] == 1 {
                assert(b[0] == 0);
                assert(b[0] * s[0] == 0) by (nonlinear_arith)
                    requires
                        b[0] == 0,
                ;
                if ns[0] == 0 {
                    assert(c[0] * 0 == 0) by (nonlinear_arith);
                } else {
                    assert(c[0] == 0);
                    assert(c[0] * ns[0] == 0) by (nonlinear_arith)
                        requires
                            c[0] == 0,
                    ;
                }
            } else {
                assert(ns[0] == s[0]);
                assert(b[0] == c[0]);
            }
        }
    }
}

} // verus!

verus! {

proof fn lemma_flat_rows_elem(st: Seq<i64>, dims: Seq<int>, s: Seq<int>, off: int, k: int, i: int)
    requires
        forall|j: int| 0 <= j < dims.len() ==> #[trigger] dims[j] >= 0,
        s.len() == dims.len(),
        dims.len() >= 1 ==> k <= dims[0],
        0 <= i < flat_rows(st, dims, s, off, k).len(),
    ensures
        exists|c: Seq<int>|
            coords_in(c, dims) && (dims.len() >= 1 ==> c[0] < k) && flat_of(c, dims) == i
                && flat_rows(st, dims, s, off, k)[i] == st[#[trigger] phys(off, c, s)],
    decreases dims.len(), k,
{
    if dims.len() == 0 {
        let c = Seq::<int>::empty();
        assert(coords_in(c, dims));
        assert(phys(off, c, s) == off);
        assert(flat_of(c, dims) == 0);
        assert(flat_rows(st, dims, s, off, k)[i] == st[phys(off, c, s)]);
    } else if k <= 0 {
        assert(flat_rows(st, dims, s, off, k).len() == 0);
    } else {
        let d2 = dims.skip(1);
        let s2 = s.skip(1);
        assert forall|j: int| 0 <= j < d2.len() implies #[trigger] d2[j] >= 0 by {
            assert(d2[j] == dims[j + 1]);
        }
        lemma_flat_rows_len(st, dims, s, off, k - 1);
        let front = flat_rows(st, dims, s, off, k - 1);
        if i < front.len() {
            lemma_flat_rows_elem(st, dims, s, off, k - 1, i);
            let c = choose|c: Seq<int>|
                coords_in(c, dims) && (dims.len() >= 1 ==> c[0] < k - 1) && flat_of(c, dims) == i
                    && front[i] == st[#[trigger] phys(off, c, s)];
            assert(flat_rows(st, dims, s, off, k)[i] == front[i]);
            assert(coords_in(c, dims) && c[0] < k && flat_rows(st, dims, s, off, k)[i] == st[phys(
                off,
                c,
                s,
            )]);
        } else {
            let o2 = off + (k - 1) * s[0];
            let inner = flat_rows(st, d2, s2, o2, head(d2));
            let i2 = i - front.len();
            if d2.len() >= 1 {
                assert(head(d2) <= d2[0]);
            }
            lemma_flat_rows_elem(st, d2, s2, o2, head(d2), i2);
            let ct = choose|ct: Seq<int>|
                coords_in(ct, d2) && (d2.len() >= 1 ==> ct[0] < head(d2)) && flat_of(ct, d2) == i2
                    && inner[i2] == st[#[trigger] phys(o2, ct, s2)];
            let c = seq![k - 1] + ct;
            assert forall|j: int| 0 <= j < c.len() implies 0 <= #[trigger] c[j] < dims[j] by {
                if j > 0 {
                    assert(c[j] == ct[j - 1]);
                    assert(d2[j - 1] == dims[j]);
                }
            }
            assert(coords_in(c, dims));
            assert(c.skip(1) =~= ct);
            assert(dot(c, s) == (k - 1) * s[0] + dot(ct, s2));
            assert(flat_of(c, dims) == (k - 1) * prod(dims.skip(1)) + flat_of(ct, d2));
            assert(flat_rows(st, dims, s, off, k)[i] == inner[i2]);
            assert(flat_rows(st, dims, s, off, k)[i] == st[phys(off, c, s)]);
        }
    }
}

/// Every element of the row-major view is the element at some valid
/// coordinates.
pub proof fn lemma_flat_all_elem(st: Seq<i64>, dims: Seq<int>, s: Seq<int>, off: int, i: int)
    requires
        forall|j: int| 0 <= j < dims.len() ==> #[trigger] dims[j] >= 0,
        s.len() == dims.len(),
        0 <= i < flat_all(st, dims, s, off).len(),
    ensures
        exists|c: Seq<int>|
            coords_in(c, dims) && flat_of(c, dims) == i && flat_all(st, dims, s, off)[i] == st[
                #[trigger] phys(off, c, s)
            ],
{
    if dims.len() >= 1 {
        assert(head(dims) == dims[0]);
    }
    lemma_flat_rows_elem(st, dims, s, off, head(dims), i);
    let c = choose|c: Seq<int>|
        coords_in(c, dims) && (dims.len() >= 1 ==> c[0] < head(dims)) && flat_of(c, dims) == i
            && flat_rows(st, dims, s, off, head(dims))[i] == st[#[trigger] phys(off, c, s)];
    assert(flat_all(st, dims, s, off)[i] == st[phys(off, c, s)]);
}

} // verus!

verus! {

/// Removing one axis divides the element count by that axis's size.
pub proof fn lemma_prod_remove(d: Seq<int>, j: int)
    requires
        0 <= j < d.len(),
    ensures
        prod(d) == d[j] * prod(d.remove(j)),
    decreases j,
{
    d.remove_ensures(j);
    if j == 0 {
        assert(d.remove(0) =~= d.skip(1));
    } else {
        lemma_prod_remove(d.skip(1), j - 1);
        assert(d.remove(j).skip(1) =~= d.skip(1).remove(j - 1));
        assert(d.remove(j)[0] == d[0]);
        assert(d.skip(1)[j - 1] == d[j]);
        assert(d[0] * (d[j] * prod(d.skip(1).remove(j - 1))) == d[j] * (d[0] * prod(
            d.skip(1).remove(j - 1),
        ))) by (nonlinear_arith);
    }
}

/// The element count of a concatenation is the product of the counts.
pub proof fn lemma_prod_concat(a: Seq<int>, b: Seq<int>)
    ensures
        prod(a + b) == prod(a) * prod(b),
    decreases a.len(),
{
    if a.len() == 0 {
        assert(a + b =~= b);
    } else {
        lemma_prod_concat(a.skip(1), b);
        assert((a + b).skip(1) =~= a.skip(1) + b);
        assert((a + b)[0] == a[0]);
        assert(a[0] * (prod(a.skip(1)) * prod(b)) == (a[0] * prod(a.skip(1))) * prod(b))
            by (nonlinear_arith);
    }
}

/// The positive product of a concatenation is the product of the positive
/// products.
pub proof fn lemma_pos_prod_concat(a: Seq<int>, b: Seq<int>)
    ensures
        pos_prod(a + b) == pos_prod(a) * pos_prod(b),
    decreases a.len(),
{
    if a.len() == 0 {
        assert(a + b =~= b);
    } else {
        lemma_pos_prod_concat(a.skip(1), b);
        assert((a + b).skip(1) =~= a.skip(1) + b);
        assert((a + b)[0] == a[0]);
        assert(pos1(a[0]) * (pos_prod(a.skip(1)) * pos_prod(b)) == (pos1(a[0]) * pos_prod(
            a.skip(1),
        )) * pos_prod(b)) by (nonlinear_arith);
    }
}

} // verus!

verus! {

/// A permutation of `0..n` takes every value below `n`.
pub proof fn lemma_perm_surjective(p: Seq<int>, k: int)
    requires
        is_perm(p, p.len() as int),
        0 <= k < p.len(),
    ensures
        exists|j: int| 0 <= j < p.len() && #[trigger] p[j] == k,
{
    broadcast use vstd::set::group_set_axioms;

    let n = p.len() as int;
    if !(exists|j: int| 0 <= j < p.len() && #[trigger] p[j] == k) {
        assert(p.no_duplicates()) by {
            assert forall|i: int, j: int|
                0 <= i < p.len() && 0 <= j < p.len() && i != j implies p[i] != p[j] by {
                if i < j {
                } else {
                }
            }
        }
        p.unique_seq_to_set();
        let rng = vstd::set_lib::set_int_range(0, n).remove(k);
        vstd::set_lib::lemma_int_range(0, n);
        assert(vstd::set_lib::set_int_range(0, n).contains(k));
        assert(rng.len() == n - 1);
        assert(p.to_set().subset_of(rng)) by {
            assert forall|x: int| p.to_set().contains(x) implies rng.contains(x) by {
                let j = choose|j: int| 0 <= j < p.len() && p[j] == x;
                assert(0 <= x < n && x != k);
            }
        }
        vstd::set_lib::lemma_len_subset(p.to_set(), rng);
    }
}

/// The inverse of a permutation: entry `k` is the position holding `k`.
pub open spec fn perm_inv(p: Seq<int>) -> Seq<int> {
    Seq::new(p.len(), |k: int| choose|j: int| 0 <= j < p.len() && #[trigger] p[j] == k)
}

pub proof fn lemma_perm_inv(p: Seq<int>)
    requires
        is_perm(p, p.len() as int),
    ensures
        is_perm(perm_inv(p), p.len() as int),
        forall|k: int| 0 <= k < p.len() ==> p[#[trigger] perm_inv(p)[k]] == k,
        forall|j: int| 0 <= j < p.len() ==> #[trigger] perm_inv(p)[p[j]] == j,
{
    let n = p.len() as int;
    let q = perm_inv(p);
    assert forall|k: int| 0 <= k < n implies 0 <= #[trigger] q[k] < n && p[q[k]] == k by {
        lemma_perm_surjective(p, k);
        let j = choose|j: int| 0 <= j < p.len() && #[trigger] p[j] == k;
        assert(q[k] == choose|j: int| 0 <= j < p.len() && #[trigger] p[j] == k);
    }
    assert forall|j: int| 0 <= j < n implies #[trigger] q[p[j]] == j by {
        assert(p[q[p[j]]] == p[j]);
        if q[p[j]] != j {
            assert(p[q[p[j]]] != p[j]);
        }
    }
    assert forall|i: int, j: int| 0 <= i < j < n implies q[i] != q[j] by {
        assert(p[q[i]] == i && p[q[j]] == j);
    }
}

} // verus!

verus! {

/// A contiguous run of axes contributes at most the whole positive product.
pub proof fn lemma_pos_prod_subrange(d: Seq<int>, a: int, b: int)
    requires
        0 <= a <= b <= d.len(),
    ensures
        pos_prod(d.subrange(a, b)) <= pos_prod(d),
{
    let pre = d.subrange(0, a);
    let mid = d.subrange(a, b);
    let post = d.subrange(b, d.len() as int);
    assert(d =~= pre + mid + post);
    lemma_pos_prod_concat(pre + mid, post);
    lemma_pos_prod_concat(pre, mid);
    lemma_pos_prod_pos(pre);
    lemma_pos_prod_pos(mid);
    lemma_pos_prod_pos(post);
    assert((pos_prod(pre) * pos_prod(mid)) * pos_prod(post) >= pos_prod(mid)) by (nonlinear_arith)
        requires
            pos_prod(pre) >= 1,
            pos_prod(mid) >= 1,
            pos_prod(post) >= 1,
    ;
}

} // verus!

verus! {

/// The values of a coordinate function over a shape, in row-major coordinate
/// order, restricted to the first `k` slices of the leading remaining axis;
/// `prefix` holds the coordinates already fixed.
pub open spec fn grid_rows<T>(
    f: spec_fn(Seq<int>) -> T,
    odims: Seq<int>,
    prefix: Seq<int>,
    k: int,
) -> Seq<T>
    decreases odims.len(), k,
{
    if odims.len() == 0 {
        seq![f(prefix)]
    } else if k <= 0 {
        Seq::empty()
    } else {
        grid_rows(f, odims, prefix, k - 1) + grid_rows(
            f,
            odims.skip(1),
            prefix.push(k - 1),
            head(odims.skip(1)),
        )
    }
}

/// The values of a coordinate function at every valid coordinate tuple of a
/// shape, in row-major order.
pub open spec fn grid_all<T>(f: spec_fn(Seq<int>) -> T, odims: Seq<int>) -> Seq<T> {
    grid_rows(f, odims, Seq::empty(), head(odims))
}

proof fn lemma_grid_rows_len<T>(f: spec_fn(Seq<int>) -> T, odims: Seq<int>, prefix: Seq<int>, k: int)
    requires
        forall|j: int| 0 <= j < odims.len() ==> #[trigger] odims[j] >= 0,
        0 <= k,
    ensures
        grid_rows(f, odims, prefix, k).len() == if odims.len() == 0 {
            1int
        } else {
            k * prod(odims.skip(1))
        },
    decreases odims.len(), k,
{
    if odims.len() == 0 {
    } else {
        assert forall|j: int| 0 <= j < odims.skip(1).len() implies #[trigger] odims.skip(1)[j]
            >= 0 by {
            assert(odims.skip(1)[j] == odims[j + 1]);
        }
        if k == 0 {
            assert(0 * prod(odims.skip(1)) == 0) by (nonlinear_arith);
        } else {
            lemma_grid_rows_len(f, odims, prefix, k - 1);
            let d2 = odims.skip(1);
            if d2.len() == 0 {
                assert(grid_rows(f, d2, prefix.push(k - 1), head(d2)).len() == 1 && prod(d2) == 1);
            } else {
                assert(head(d2) >= 0);
                lemma_grid_rows_len(f, d2, prefix.push(k - 1), head(d2));
                assert(d2[0] * prod(d2.skip(1)) == prod(d2));
            }
            assert((k - 1) * prod(d2) + prod(d2) == k * prod(d2)) by (nonlinear_arith);
        }
    }
}

/// The length of a full grid is the shape's element count.
pub proof fn lemma_grid_all_len<T>(f: spec_fn(Seq<int>) -> T, odims: Seq<int>)
    requires
        forall|j: int| 0 <= j < odims.len() ==> #[trigger] odims[j] >= 0,
    ensures
        grid_all(f, odims).len() == prod(odims),
{
    if odims.len() == 0 {
    } else {
        lemma_grid_rows_len(f, odims, Seq::empty(), odims[0]);
    }
}

proof fn lemma_grid_rows_index<T>(
    f: spec_fn(Seq<int>) -> T,
    odims: Seq<int>,
    prefix: Seq<int>,
    k: int,
    c: Seq<int>,
)
    requires
        coords_in(c, odims),
        odims.len() >= 1,
        0 <= c[0] < k,
        k <= odims[0],
    ensures
        0 <= flat_of(c, odims) < grid_rows(f, odims, prefix, k).len(),
        grid_rows(f, odims, prefix, k)[flat_of(c, odims)] == f(prefix + c),
    decreases odims.len(), k,
{
    assert forall|j: int| 0 <= j < odims.len() implies #[trigger] odims[j] >= 0 by {
        assert(0 <= c[j] < odims[j]);
    }
    let d2 = odims.skip(1);
    let ct = c.skip(1);
    assert forall|j: int| 0 <= j < ct.len() implies 0 <= #[trigger] ct[j] < d2[j] by {
        assert(ct[j] == c[j + 1]);
        assert(d2[j] == odims[j + 1]);
    }
    lemma_flat_bound(ct, d2);
    lemma_flat_bound(c, odims);
    lemma_grid_rows_len(f, odims, prefix, k);
    lemma_grid_rows_len(f, odims, prefix, k - 1);
    let p = prod(d2);
    let b = c[0];
    let fr = flat_of(c, odims);
    assert(fr == b * p + flat_of(ct, d2));
    if b == k - 1 {
        assert((k - 1) * p <= fr < k * p) by (nonlinear_arith)
            requires
                fr == b * p + flat_of(ct, d2),
                b == k - 1,
                0 <= flat_of(ct, d2) < p,
        ;
        let inner = grid_rows(f, d2, prefix.push(k - 1), head(d2));
        if d2.len() == 0 {
            assert(ct.len() == 0);
            assert(inner[0] == f(prefix.push(k - 1)));
            assert(prefix.push(k - 1) =~= prefix + c);
        } else {
            assert(head(d2) == d2[0]);
            lemma_grid_rows_index(f, d2, prefix.push(k - 1), d2[0], ct);
            assert(inner[flat_of(ct, d2)] == f(prefix.push(k - 1) + ct));
            assert(prefix.push(k - 1) + ct =~= prefix + c);
        }
        assert(grid_rows(f, odims, prefix, k)[fr] == (grid_rows(f, odims, prefix, k - 1)
            + inner)[fr]);
    } else {
        assert(0 <= b < k - 1);
        assert(fr < (k - 1) * p) by (nonlinear_arith)
            requires
                fr == b * p + flat_of(ct, d2),
                0 <= b < k - 1,
                0 <= flat_of(ct, d2) < p,
        ;
        lemma_grid_rows_index(f, odims, prefix, k - 1, c);
    }
}

/// Indexing a full grid at the flattening of valid coordinates reads the
/// function at those coordinates.
pub proof fn lemma_grid_index<T>(f: spec_fn(Seq<int>) -> T, odims: Seq<int>, c: Seq<int>)
    requires
        coords_in(c, odims),
    ensures
        0 <= flat_of(c, odims) < grid_all(f, odims).len(),
        grid_all(f, odims)[flat_of(c, odims)] == f(c),
{
    if odims.len() == 0 {
        assert(c.len() == 0);
        assert(grid_all(f, odims) == seq![f(Seq::<int>::empty())]);
        assert(Seq::<int>::empty() =~= c);
    } else {
        assert(head(odims) == odims[0]);
        lemma_grid_rows_index(f, odims, Seq::empty(), odims[0], c);
        assert(Seq::<int>::empty() + c =~= c);
    }
}

} // verus!

verus! {

/// Positive products compare pointwise through `pos1`.
pub proof fn lemma_pos_prod_le_pos1(a: Seq<int>, b: Seq<int>)
    requires
        a.len() == b.len(),
        forall|j: int| 0 <= j < a.len() ==> pos1(#[trigger] a[j]) <= pos1(b[j]),
    ensures
        pos_prod(a) <= pos_prod(b),
    decreases a.len(),
{
    if a.len() > 0 {
        assert forall|j: int|
            0 <= j < a.skip(1).len() implies pos1(#[trigger] a.skip(1)[j]) <= pos1(
            b.skip(1)[j],
        ) by {
            assert(a.skip(1)[j] == a[j + 1]);
            assert(b.skip(1)[j] == b[j + 1]);
        }
        lemma_pos_prod_le_pos1(a.skip(1), b.skip(1));
        lemma_pos_prod_pos(a.skip(1));
        assert(pos1(a[0]) * pos_prod(a.skip(1)) <= pos1(b[0]) * pos_prod(b.skip(1)))
            by (nonlinear_arith)
            requires
                1 <= pos1(a[0]) <= pos1(b[0]),
                1 <= pos_prod(a.skip(1)) <= pos_prod(b.skip(1)),
        ;
    }
}

} // verus!

verus! {

proof fn lemma_grid_rows_elem<T>(
    f: spec_fn(Seq<int>) -> T,
    odims: Seq<int>,
    prefix: Seq<int>,
    k: int,
    i: int,
)
    requires
        forall|j: int| 0 <= j < odims.len() ==> #[trigger] odims[j] >= 0,
        odims.len() >= 1 ==> k <= odims[0],
        0 <= i < grid_rows(f, odims, prefix, k).len(),
    ensures
        exists|c: Seq<int>|
            coords_in(c, odims) && (odims.len() >= 1 ==> c[0] < k) && grid_rows(
                f,
                odims,
                prefix,
                k,
            )[i] == f(#[trigger] (prefix + c)),
    decreases odims.len(), k,
{
    if odims.len() == 0 {
        let c = Seq::<int>::empty();
        assert(coords_in(c, odims));
        assert(prefix + c =~= prefix);
        assert(grid_rows(f, odims, prefix, k)[i] == f(prefix + c));
    } else if k <= 0 {
        assert(grid_rows(f, odims, prefix, k).len() == 0);
    } else {
        let d2 = odims.skip(1);
        assert forall|j: int| 0 <= j < d2.len() implies #[trigger] d2[j] >= 0 by {
            assert(d2[j] == odims[j + 1]);
        }
        lemma_grid_rows_len(f, odims, prefix, k - 1);
        let front = grid_rows(f, odims, prefix, k - 1);
        if i < front.len() {
            lemma_grid_rows_elem(f, odims, prefix, k - 1, i);
            let c = choose|c: Seq<int>|
                coords_in(c, odims) && (odims.len() >= 1 ==> c[0] < k - 1) && front[i] == f(
                    #[trigger] (prefix + c),
                );
            assert(grid_rows(f, odims, prefix, k)[i] == front[i]);
            assert(coords_in(c, odims) && c[0] < k && grid_rows(f, odims, prefix, k)[i] == f(
                prefix + c,
            ));
        } else {
            let i2 = i - front.len();
            if d2.len() >= 1 {
                assert(head(d2) <= d2[0]);
            }
            lemma_grid_rows_elem(f, d2, prefix.push(k - 1), head(d2), i2);
            let ct = choose|ct: Seq<int>|
                coords_in(ct, d2) && (d2.len() >= 1 ==> ct[0] < head(d2)) && grid_rows(
                    f,
                    d2,
                    prefix.push(k - 1),
                    head(d2),
                )[i2] == f(#[trigger] (prefix.push(k - 1) + ct));
            let c = seq![k - 1] + ct;
            assert forall|j: int| 0 <= j < c.len() implies 0 <= #[trigger] c[j] < odims[j] by {
                if j > 0 {
                    assert(c[j] == ct[j - 1]);
                    assert(d2[j - 1] == odims[j]);
                }
            }
            assert(coords_in(c, odims));
            assert(prefix.push(k - 1) + ct =~= prefix + c);
            assert(grid_rows(f, odims, prefix, k)[i] == grid_rows(
                f,
                d2,
                prefix.push(k - 1),
                head(d2),
            )[i2]);
        }
    }
}

/// Every element of a grid is the function's value at some valid coordinates.
pub proof fn lemma_grid_all_elem<T>(f: spec_fn(Seq<int>) -> T, odims: Seq<int>, i: int)
    requires
        forall|j: int| 0 <= j < odims.len() ==> #[trigger] odims[j] >= 0,
        0 <= i < grid_all(f, odims).len(),
    ensures
        exists|c: Seq<int>| coords_in(c, odims) && grid_all(f, odims)[i] == #[trigger] f(c),
{
    if odims.len() >= 1 {
        assert(head(odims) == odims[0]);
    }
    lemma_grid_rows_elem(f, odims, Seq::empty(), head(odims), i);
    let c = choose|c: Seq<int>|
        coords_in(c, odims) && (odims.len() >= 1 ==> c[0] < head(odims)) && grid_rows(
            f,
            odims,
            Seq::empty(),
            head(odims),
        )[i] == f(#[trigger] (Seq::empty() + c));
    assert(Seq::empty() + c =~= c);
    assert(grid_all(f, odims)[i] == f(c));
}

} // verus!

verus! {

/// Inserting a one-element axis, with its coordinate pinned to zero, does
/// not move the row-major position.
pub proof fn lemma_flat_insert_unit(c: Seq<int>, d: Seq<int>, j: int)
    requires
        c.len() == d.len(),
        0 <= j <= d.len(),
    ensures
        flat_of(c.insert(j, 0int), d.insert(j, 1int)) == flat_of(c, d),
    decreases j,
{
    let c2 = c.insert(j, 0int);
    let d2 = d.insert(j, 1int);
    if j == 0 {
        assert(c2[0] == 0);
        assert(c2.skip(1) =~= c);
        assert(d2.skip(1) =~= d);
        assert(0 * prod(d2.skip(1)) == 0) by (nonlinear_arith);
    } else {
        lemma_flat_insert_unit(c.skip(1), d.skip(1), j - 1);
        assert(c2[0] == c[0]);
        assert(d2[0] == d[0]);
        assert(c2.skip(1) =~= c.skip(1).insert(j - 1, 0int));
        assert(d2.skip(1) =~= d.skip(1).insert(j - 1, 1int));
        assert(prod(d2.skip(1)) == prod(d.skip(1))) by {
            lemma_prod_remove(d.skip(1).insert(j - 1, 1int), j - 1);
            assert(d.skip(1).insert(j - 1, 1int).remove(j - 1) =~= d.skip(1));
            assert(d.skip(1).insert(j - 1, 1int)[j - 1] == 1);
        }
    }
}

} // verus!

verus! {

/// Element-count unfolding for a rank-2 shape.
pub proof fn lemma_prod2(d: Seq<int>)
    requires
        d.len() == 2,
    ensures
        prod(d) == d[0] * (d[1] * 1),
{
    assert(d.skip(1)[0] == d[1]);
    assert(d.skip(1).skip(1) =~= Seq::<int>::empty());
    assert(prod(d.skip(1)) == d[1] * prod(d.skip(1).skip(1)));
}

/// Element-count unfolding for a rank-3 shape.
pub proof fn lemma_prod3(d: Seq<int>)
    requires
        d.len() == 3,
    ensures
        prod(d) == d[0] * (d[1] * (d[2] * 1)),
{
    let s1 = d.skip(1);
    let s2 = d.skip(2);
    assert(s1[0] == d[1]);
    assert(s1.skip(1) =~= s2);
    assert(s2[0] == d[2]);
    assert(s2.skip(1) =~= Seq::<int>::empty());
    assert(prod(s2) == d[2] * prod(s2.skip(1)));
    assert(prod(s1) == d[1] * prod(s2));
}

/// In an addressable rank-3 shape, the two leading sizes multiply within
/// the machine's range.
pub proof fn lemma_prefix2_bound(d: Seq<int>)
    requires
        d.len() == 3,
        shape_ok(d),
        forall|j: int| 0 <= j < d.len() ==> #[trigger] d[j] >= 0,
    ensures
        d[0] * d[1] <= usize::MAX,
        0 <= d[0] * d[1],
{
    let s1 = d.skip(1);
    let s2 = d.skip(2);
    assert(s1[0] == d[1]);
    assert(s1.skip(1) =~= s2);
    assert(s2[0] == d[2]);
    assert(s2.skip(1) =~= Seq::<int>::empty());
    assert(pos_prod(s2.skip(1)) == 1);
    assert(pos_prod(s2) == pos1(d[2]) * 1);
    assert(pos_prod(s1) == pos1(d[1]) * (pos1(d[2]) * 1));
    assert(pos_prod(d) == pos1(d[0]) * (pos1(d[1]) * (pos1(d[2]) * 1)));
    assert(d[0] * d[1] <= pos1(d[0]) * (pos1(d[1]) * (pos1(d[2]) * 1)) && 0 <= d[0] * d[1])
        by (nonlinear_arith)
        requires
            0 <= d[0] <= pos1(d[0]),
            0 <= d[1] <= pos1(d[1]),
            1 <= pos1(d[0]),
            1 <= pos1(d[1]),
            1 <= pos1(d[2]),
    ;
}

} // verus!

verus! {

/// A dot product splits at any point into the dot of the prefix and the dot
/// of the suffix.
pub proof fn lemma_dot_split(c: Seq<int>, s: Seq<int>, p: int)
    requires
        c.len() == s.len(),
        0 <= p <= c.len(),
    ensures
        dot(c, s) == dot(c.take(p), s.take(p)) + dot(c.skip(p), s.skip(p)),
    decreases p,
{
    if p == 0 {
        assert(c.take(0) =~= Seq::<int>::empty());
        assert(s.take(0) =~= Seq::<int>::empty());
        assert(c.skip(0) =~= c);
        assert(s.skip(0) =~= s);
    } else {
        lemma_dot_split(c.skip(1), s.skip(1), p - 1);
        assert(c.skip(1).take(p - 1) =~= c.take(p).skip(1));
        assert(s.skip(1).take(p - 1) =~= s.take(p).skip(1));
        assert(c.skip(1).skip(p - 1) =~= c.skip(p));
        assert(s.skip(1).skip(p - 1) =~= s.skip(p));
        assert(c.take(p)[0] == c[0] && s.take(p)[0] == s[0]);
    }
}

/// The dot product of an all-zero coordinate vector is zero.
pub proof fn lemma_dot_zero(c: Seq<int>, s: Seq<int>)
    requires
        c.len() == s.len(),
        forall|j: int| 0 <= j < c.len() ==> #[trigger] c[j] == 0,
    ensures
        dot(c, s) == 0,
    decreases c.len(),
{
    if c.len() > 0 {
        lemma_dot_zero(c.skip(1), s.skip(1));
    }
}

/// Each row-major stride is the product of the dimension sizes after it.
pub proof fn lemma_row_major_entry(d: Seq<int>, j: int)
    requires
        0 <= j < d.len(),
    ensures
        row_major(d)[j] == prod(d.skip(j + 1)),
    decreases j,
{
    lemma_row_major_len(d);
    if j > 0 {
        lemma_row_major_entry(d.skip(1), j - 1);
        lemma_row_major_len(d.skip(1));
        assert(row_major(d)[j] == row_major(d.skip(1))[j - 1]);
        assert(d.skip(1).skip(j) =~= d.skip(j + 1));
    }
}

/// A positive product of nonnegative factors has every factor positive.
pub proof fn lemma_prod_pos_entries(d: Seq<int>)
    requires
        forall|j: int| 0 <= j < d.len() ==> #[trigger] d[j] >= 0,
        prod(d) > 0,
    ensures
        forall|j: int| 0 <= j < d.len() ==> #[trigger] d[j] >= 1,
    decreases d.len(),
{
    if d.len() > 0 {
        assert forall|x: int| 0 <= x < d.skip(1).len() implies #[trigger] d.skip(1)[x] >= 0 by {
            assert(d.skip(1)[x] == d[x + 1]);
        }
        lemma_prod_nonneg(d.skip(1));
        assert(prod(d) == d[0] * prod(d.skip(1)));
        assert(d[0] >= 1 && prod(d.skip(1)) > 0) by (nonlinear_arith)
            requires
                prod(d) == d[0] * prod(d.skip(1)),
                prod(d) > 0,
                d[0] >= 0,
                prod(d.skip(1)) >= 0,
        ;
        lemma_prod_pos_entries(d.skip(1));
        assert forall|j: int| 0 <= j < d.len() implies #[trigger] d[j] >= 1 by {
            if j > 0 {
                assert(d.skip(1)[j - 1] == d[j]);
            }
        }
    }
}

} // verus!
