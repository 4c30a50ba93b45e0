//! The in-process backend's primitive kernels over raw storage: reading a
//! strided element, and copying a strided view into a fresh contiguous
//! buffer in row-major order.

use vstd::prelude::*;
use crate::dims::{
    coords_in, dot, flat_all, flat_rows, head, ints, lemma_dot_take_all, lemma_dot_take_le,
    lemma_dot_take_step, lemma_flat_all_len, lemma_phys_head, lemma_prod_pos_iff, phys, prod,
    suffix_ok,
};
use crate::shape::elem_count_of;

verus! {

/// Reads the element addressed by coordinates `c` under the given strides
/// and offset.
pub(crate) fn read_at(st: &Vec<i64>, strides: &Vec<usize>, off: usize, c: &Vec<usize>) -> (r: i64)
    requires
        strides@.len() == c@.len(),
        phys(off as int, ints(c@), ints(strides@)) < st@.len(),
        forall|j: int| 0 <= j < c@.len() ==> ints(c@)[j] >= 0,
    ensures
        r == st@[phys(off as int, ints(c@), ints(strides@))],
{
    let ghost ci = ints(c@);
    let ghost si = ints(strides@);
    let stlen = st.len();
    let n = c.len();
    let mut acc: usize = off;
    let mut j: usize = 0;
    proof {
        assert(ci.take(0).len() == 0);
        assert(dot(ci.take(0), si.take(0)) == 0);
        assert forall|i: int| 0 <= i < si.len() implies #[trigger] si[i] >= 0 by {}
        lemma_dot_take_le(ci, si, 0);
    }
    while j < n
        invariant
            0 <= j <= n,
            n == c@.len(),
            strides@.len() == n,
            ci == ints(c@),
            si == ints(strides@),
            off + dot(ci, si) < st@.len(),
            stlen == st@.len(),
            forall|i: int| 0 <= i < n ==> #[trigger] ci[i] >= 0,
            forall|i: int| 0 <= i < n ==> #[trigger] si[i] >= 0,
            acc == off + dot(ci.take(j as int), si.take(j as int)),
        decreases n - j,
    {
        proof {
            lemma_dot_take_step(ci, si, j as int);
            lemma_dot_take_le(ci, si, j as int + 1);
            assert(ci[j as int] * si[j as int] >= 0) by (nonlinear_arith)
                requires
                    ci[j as int] >= 0,
                    si[j as int] >= 0,
            ;
            assert(acc + ci[j as int] * si[j as int] == off + dot(
                ci.take(j as int + 1),
                si.take(j as int + 1),
            ));
            assert(off + dot(ci.take(j as int + 1), si.take(j as int + 1)) < stlen);
        }
        acc = acc + c[j] * strides[j];
        j = j + 1;
    }
    proof {
        lemma_dot_take_all(ci, si);
    }
    st[acc]
}

/// Copies every element of a strided view, in row-major logical order, into
/// a fresh contiguous buffer.
pub(crate) fn materialize(st: &Vec<i64>, dims: &Vec<usize>, strides: &Vec<usize>, off: usize) -> (out:
    Vec<i64>)
    requires
        strides@.len() == dims@.len(),
        suffix_ok(ints(dims@)),
        forall|c: Seq<int>|
            coords_in(c, ints(dims@)) ==> #[trigger] phys(off as int, c, ints(strides@))
                < st@.len(),
    ensures
        out@ == flat_all(st@, ints(dims@), ints(strides@), off as int),
        out@.len() == prod(ints(dims@)),
{
    let ghost d = ints(dims@);
    let ghost s = ints(strides@);
    proof {
        assert forall|j: int| 0 <= j < d.len() implies #[trigger] d[j] >= 0 by {}
        lemma_flat_all_len(st@, d, s, off as int);
    }
    let n = elem_count_of(dims);
    if n == 0 {
        let out: Vec<i64> = Vec::new();
        proof {
            assert(out@ =~= flat_all(st@, d, s, off as int));
        }
        out
    } else {
        proof {
            lemma_prod_pos_iff(d);
        }
        let mut out: Vec<i64> = Vec::new();
        proof {
            assert(ints(dims@).skip(0) =~= ints(dims@));
            assert(ints(strides@).skip(0) =~= ints(strides@));
            assert forall|c: Seq<int>| coords_in(c, ints(dims@).skip(0)) implies #[trigger] phys(
                off as int,
                c,
                ints(strides@).skip(0),
            ) < st@.len() by {
                assert(phys(off as int, c, ints(strides@)) < st@.len());
            }
        }
        materialize_rec(st, dims, strides, 0, off, &mut out);
        proof {
            assert(d.skip(0) =~= d);
            assert(s.skip(0) =~= s);
            assert(out@ =~= flat_all(st@, d, s, off as int));
        }
        out
    }
}

/// Appends the row-major elements of the sub-view that fixes the first `dep`
/// coordinates, whose strided offset is `off`.
#[verifier::rlimit(100)]
fn materialize_rec(
    st: &Vec<i64>,
    dims: &Vec<usize>,
    strides: &Vec<usize>,
    dep: usize,
    off: usize,
    out: &mut Vec<i64>,
)
    requires
        dep <= dims@.len(),
        strides@.len() == dims@.len(),
        forall|j: int| dep <= j < dims@.len() ==> #[trigger] ints(dims@)[j] >= 1,
        forall|c: Seq<int>|
            coords_in(c, ints(dims@).skip(dep as int)) ==> #[trigger] phys(
                off as int,
                c,
                ints(strides@).skip(dep as int),
            ) < st@.len(),
    ensures
        final (out)@ == old(out)@ + flat_all(
            st@,
            ints(dims@).skip(dep as int),
            ints(strides@).skip(dep as int),
            off as int,
        ),
    decreases dims@.len() - dep,
{
    let ghost d = ints(dims@).skip(dep as int);
    let ghost s = ints(strides@).skip(dep as int);
    if dep == dims.len() {
        proof {
            let ce = Seq::<int>::empty();
            assert(coords_in(ce, d));
            assert(phys(off as int, ce, s) == off);
        }
        out.push(st[off]);
        proof {
            assert(final (out)@ =~= old(out)@ + flat_all(st@, d, s, off as int));
        }
    } else {
        let kmax = dims[dep];
        let sd = strides[dep];
        let stlen = st.len();
        let ndims = dims.len();
        let ghost d2 = ints(dims@).skip(dep as int + 1);
        let ghost s2 = ints(strides@).skip(dep as int + 1);
        proof {
            assert(d[0] == ints(dims@)[dep as int]);
            assert(s[0] == ints(strides@)[dep as int]);
            assert(d.skip(1) =~= d2);
            assert(s.skip(1) =~= s2);
        }
        let mut k: usize = 0;
        let ghost base = out@;
        while k < kmax
            invariant
                0 <= k <= kmax,
                dep < dims@.len(),
                kmax == dims@[dep as int],
                sd == strides@[dep as int],
                strides@.len() == dims@.len(),
                d == ints(dims@).skip(dep as int),
                s == ints(strides@).skip(dep as int),
                d2 == ints(dims@).skip(dep as int + 1),
                s2 == ints(strides@).skip(dep as int + 1),
                d.len() >= 1 && d[0] == kmax && s[0] == sd,
                d.skip(1) == d2 && s.skip(1) == s2,
                forall|j: int| dep <= j < dims@.len() ==> #[trigger] ints(dims@)[j] >= 1,
                forall|c: Seq<int>|
                    coords_in(c, d) ==> #[trigger] phys(off as int, c, s) < st@.len(),
                stlen == st@.len(),
                ndims == dims@.len(),
                out@ == base + flat_rows(st@, d, s, off as int, k as int),
            decreases kmax - k,
        {
            proof {
                crate::dims::lemma_head_offset_bound(d, s, off as int, st@.len() as int, k as int);
                assert(st@.len() <= usize::MAX);
                assert(k * sd >= 0) by (nonlinear_arith)
                    requires
                        k >= 0,
                        sd >= 0,
                ;
            }
            let off2 = off + k * sd;
            proof {
                crate::dims::lemma_sub_bounds(d, s, off as int, st@.len() as int, k as int);
            }
            let ghost before = out@;
            materialize_rec(st, dims, strides, dep + 1, off2, out);
            proof {
                assert(flat_rows(st@, d, s, off as int, k as int + 1) == flat_rows(
                    st@,
                    d,
                    s,
                    off as int,
                    k as int,
                ) + flat_rows(st@, d.skip(1), s.skip(1), off as int + k * s[0], head(d.skip(1))));
                assert(out@ =~= base + flat_rows(st@, d, s, off as int, k as int + 1));
            }
            k = k + 1;
        }
        proof {
            assert(out@ == base + flat_all(st@, d, s, off as int));
        }
    }
}

} // verus!

verus! {

/// Fills a fresh buffer with `f`'s value at every valid coordinate tuple of
/// the shape, in row-major coordinate order. The ghost function `fs` names
/// the value `f` computes.
pub(crate) fn build_grid<T, F: Fn(&Vec<usize>) -> T>(
    odims: &Vec<usize>,
    f: &F,
    Ghost(fs): Ghost<spec_fn(Seq<int>) -> T>,
) -> (out: Vec<T>)
    requires
        suffix_ok(ints(odims@)),
        forall|c: Vec<usize>|
            coords_in(ints(c@), ints(odims@)) ==> #[trigger] call_requires(*f, (&c,)),
        forall|c: Vec<usize>, v: T|
            coords_in(ints(c@), ints(odims@)) && #[trigger] call_ensures(*f, (&c,), v) ==> v == fs(
                ints(c@),
            ),
    ensures
        out@ == crate::dims::grid_all(fs, ints(odims@)),
        out@.len() == prod(ints(odims@)),
{
    let ghost d = ints(odims@);
    proof {
        crate::dims::lemma_ints_nonneg(odims@);
        crate::dims::lemma_grid_all_len(fs, d);
    }
    let n = elem_count_of(odims);
    if n == 0 {
        let out: Vec<T> = Vec::new();
        proof {
            assert(out@ =~= crate::dims::grid_all(fs, d));
        }
        out
    } else {
        proof {
            lemma_prod_pos_iff(d);
        }
        let mut out: Vec<T> = Vec::new();
        let mut cur: Vec<usize> = Vec::new();
        build_grid_rec(odims, f, Ghost(fs), 0, &mut cur, &mut out);
        proof {
            assert(ints(odims@).skip(0) =~= d);
            assert(ints(Seq::<usize>::empty()) =~= Seq::<int>::empty());
            assert(out@ =~= crate::dims::grid_all(fs, d));
        }
        out
    }
}

/// Appends `f`'s values over all coordinate tuples extending the prefix in
/// `cur`, in row-major order, and restores `cur`.
fn build_grid_rec<T, F: Fn(&Vec<usize>) -> T>(
    odims: &Vec<usize>,
    f: &F,
    Ghost(fs): Ghost<spec_fn(Seq<int>) -> T>,
    dep: usize,
    cur: &mut Vec<usize>,
    out: &mut Vec<T>,
)
    requires
        dep <= odims@.len(),
        old(cur)@.len() == dep,
        forall|j: int| 0 <= j < dep ==> 0 <= #[trigger] ints(old(cur)@)[j] < ints(odims@)[j],
        forall|j: int| dep <= j < odims@.len() ==> #[trigger] ints(odims@)[j] >= 1,
        forall|c: Vec<usize>|
            coords_in(ints(c@), ints(odims@)) ==> #[trigger] call_requires(*f, (&c,)),
        forall|c: Vec<usize>, v: T|
            coords_in(ints(c@), ints(odims@)) && #[trigger] call_ensures(*f, (&c,), v) ==> v == fs(
                ints(c@),
            ),
    ensures
        final (cur)@ == old(cur)@,
        final (out)@ == old(out)@ + crate::dims::grid_rows(
            fs,
            ints(odims@).skip(dep as int),
            ints(old(cur)@),
            crate::dims::head(ints(odims@).skip(dep as int)),
        ),
    decreases odims@.len() - dep,
{
    let ghost d = ints(odims@).skip(dep as int);
    let ghost prefix = ints(old(cur)@);
    if dep == odims.len() {
        proof {
            assert(d.len() == 0);
            assert forall|j: int| 0 <= j < cur@.len() implies 0 <= #[trigger] ints(cur@)[j] < ints(
                odims@,
            )[j] by {}
            assert(coords_in(ints(cur@), ints(odims@)));
        }
        let v = f(cur);
        proof {
            assert(v == fs(prefix));
        }
        out.push(v);
        proof {
            assert(final (out)@ =~= old(out)@ + crate::dims::grid_rows(
                fs,
                d,
                prefix,
                crate::dims::head(d),
            ));
        }
    } else {
        let kmax = odims[dep];
        let nd = odims.len();
        let ghost d2 = ints(odims@).skip(dep as int + 1);
        proof {
            assert(d[0] == ints(odims@)[dep as int]);
            assert(d.skip(1) =~= d2);
        }
        let mut k: usize = 0;
        let ghost base = out@;
        while k < kmax
            invariant
                0 <= k <= kmax,
                dep < odims@.len(),
                kmax == odims@[dep as int],
                d == ints(odims@).skip(dep as int),
                d2 == ints(odims@).skip(dep as int + 1),
                d.len() >= 1 && d[0] == kmax,
                d.skip(1) == d2,
                cur@.len() == dep,
                nd == odims@.len(),
                cur@ == old(cur)@,
                prefix == ints(cur@),
                forall|j: int| 0 <= j < dep ==> 0 <= #[trigger] ints(cur@)[j] < ints(odims@)[j],
                forall|j: int| dep <= j < odims@.len() ==> #[trigger] ints(odims@)[j] >= 1,
                forall|c: Vec<usize>|
                    coords_in(ints(c@), ints(odims@)) ==> #[trigger] call_requires(*f, (&c,)),
                forall|c: Vec<usize>, v: T|
                    coords_in(ints(c@), ints(odims@)) && #[trigger] call_ensures(*f, (&c,), v)
                        ==> v == fs(ints(c@)),
                out@ == base + crate::dims::grid_rows(fs, d, prefix, k as int),
            decreases kmax - k,
        {
            cur.push(k);
            proof {
                assert(ints(cur@) =~= prefix.push(k as int));
                assert forall|j: int| 0 <= j < dep + 1 implies 0 <= #[trigger] ints(cur@)[j] < ints(
                    odims@,
                )[j] by {
                    if j < dep {
                        assert(ints(cur@)[j] == prefix[j]);
                    } else {
                        assert(ints(cur@)[j] == k as int);
                    }
                }
            }
            build_grid_rec(odims, f, Ghost(fs), dep + 1, cur, out);
            cur.pop();
            proof {
                assert(cur@ =~= old(cur)@);
                assert(out@ =~= base + crate::dims::grid_rows(fs, d, prefix, k as int + 1));
            }
            k = k + 1;
        }
        proof {
            assert(crate::dims::head(d) == kmax);
        }
    }
}

} // verus!

verus! {

/// Computes the storage position addressed by coordinates `c`.
pub(crate) fn offset_at(
    stlen: usize,
    strides: &Vec<usize>,
    off: usize,
    c: &Vec<usize>,
) -> (r: usize)
    requires
        strides@.len() == c@.len(),
        phys(off as int, ints(c@), ints(strides@)) < stlen,
        forall|j: int| 0 <= j < c@.len() ==> ints(c@)[j] >= 0,
    ensures
        r as int == phys(off as int, ints(c@), ints(strides@)),
{
    let ghost ci = ints(c@);
    let ghost si = ints(strides@);
    let n = c.len();
    let mut acc: usize = off;
    let mut j: usize = 0;
    proof {
        assert(ci.take(0).len() == 0);
        assert(dot(ci.take(0), si.take(0)) == 0);
        assert forall|i: int| 0 <= i < si.len() implies #[trigger] si[i] >= 0 by {}
        lemma_dot_take_le(ci, si, 0);
    }
    while j < n
        invariant
            0 <= j <= n,
            n == c@.len(),
            strides@.len() == n,
            ci == ints(c@),
            si == ints(strides@),
            off + dot(ci, si) < stlen,
            forall|i: int| 0 <= i < n ==> #[trigger] ci[i] >= 0,
            forall|i: int| 0 <= i < n ==> #[trigger] si[i] >= 0,
            acc == off + dot(ci.take(j as int), si.take(j as int)),
        decreases n - j,
    {
        proof {
            lemma_dot_take_step(ci, si, j as int);
            lemma_dot_take_le(ci, si, j as int + 1);
            assert(ci[j as int] * si[j as int] >= 0) by (nonlinear_arith)
                requires
                    ci[j as int] >= 0,
                    si[j as int] >= 0,
            ;
            assert(acc + ci[j as int] * si[j as int] == off + dot(
                ci.take(j as int + 1),
                si.take(j as int + 1),
            ));
            assert(off + dot(ci.take(j as int + 1), si.take(j as int + 1)) < stlen);
        }
        acc = acc + c[j] * strides[j];
        j = j + 1;
    }
    proof {
        lemma_dot_take_all(ci, si);
    }
    acc
}

} // verus!
