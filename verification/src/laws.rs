//! Laws relating the operation contracts: what a reader should be able to
//! count on when composing view operations, broadcasting arithmetic and
//! concatenation. Each law quantifies over the tensors the operations
//! produced, assuming exactly the producing operations' contracts.

use vstd::prelude::*;
use crate::concat::{catd_off, catd_shape, catd_sum};
use crate::dims::{bcast_src, coords_in};
use crate::dtype::{wrap_val, DType};
use crate::tensor::{swap_coords, Tensor};

verus! {

/// Filling a shape with zeros, taking a ones tensor like it, and subtracting
/// the zeros elementwise leaves every element one: the result is the ones
/// tensor of that shape.
pub proof fn lemma_zeros_ones_like_sub(z: Tensor, o: Tensor, d: Tensor, dt: DType, s: Seq<int>)
    requires
        z.wf(),
        z.dims_sp() == s,
        z.dtype_sp() == dt,
        forall|c: Seq<int>| coords_in(c, z.dims_sp()) ==> #[trigger] z.at(c) == 0,
        o.wf(),
        o.dims_sp() == z.dims_sp(),
        o.dtype_sp() == z.dtype_sp(),
        forall|c: Seq<int>| coords_in(c, o.dims_sp()) ==> #[trigger] o.at(c) == 1,
        d.wf(),
        d.dims_sp() == o.dims_sp(),
        d.dtype_sp() == o.dtype_sp(),
        forall|c: Seq<int>|
            coords_in(c, o.dims_sp()) ==> #[trigger] d.at(c) as int == wrap_val(
                dt,
                o.at(c) - z.at(c),
            ),
    ensures
        d.dims_sp() == s,
        forall|c: Seq<int>| coords_in(c, s) ==> #[trigger] d.at(c) == 1,
{
    assert forall|c: Seq<int>| coords_in(c, s) implies #[trigger] d.at(c) == 1 by {
        assert(d.at(c) as int == wrap_val(dt, o.at(c) - z.at(c)));
        assert(o.at(c) == 1 && z.at(c) == 0);
        crate::dtype::lemma_wrap_id(dt, 1);
    }
}

/// Reshaping is a left inverse of itself: reshaping to any shape of equal
/// element count and back yields a tensor with the original shape and the
/// original row-major values.
pub proof fn lemma_reshape_roundtrip(t: Tensor, r1: Tensor, r2: Tensor, s2: Seq<int>)
    requires
        r1.dims_sp() == s2,
        r1.vals() == t.vals(),
        r2.dims_sp() == t.dims_sp(),
        r2.vals() == r1.vals(),
    ensures
        r2.dims_sp() == t.dims_sp(),
        r2.vals() == t.vals(),
{
}

/// Transposing twice with the same dimensions restores the original shape
/// and values.
pub proof fn lemma_transpose_involutive(t: Tensor, r1: Tensor, r2: Tensor, d1: int, d2: int)
    requires
        t.wf(),
        r1.wf(),
        r2.wf(),
        0 <= d1 < t.dims_sp().len(),
        0 <= d2 < t.dims_sp().len(),
        r1.dims_sp() == t.dims_sp().update(d1, t.dims_sp()[d2]).update(d2, t.dims_sp()[d1]),
        forall|c: Seq<int>|
            coords_in(c, r1.dims_sp()) ==> #[trigger] r1.at(c) == t.at(swap_coords(c, d1, d2)),
        r2.dims_sp() == r1.dims_sp().update(d1, r1.dims_sp()[d2]).update(d2, r1.dims_sp()[d1]),
        forall|c: Seq<int>|
            coords_in(c, r2.dims_sp()) ==> #[trigger] r2.at(c) == r1.at(swap_coords(c, d1, d2)),
    ensures
        r2.dims_sp() == t.dims_sp(),
        forall|c: Seq<int>| coords_in(c, t.dims_sp()) ==> #[trigger] r2.at(c) == t.at(c),
        r2.vals() == t.vals(),
{
    assert(r2.dims_sp() =~= t.dims_sp());
    assert forall|c: Seq<int>| coords_in(c, t.dims_sp()) implies #[trigger] r2.at(c) == t.at(
        c,
    ) by {
        let cs = swap_coords(c, d1, d2);
        assert(coords_in(cs, r1.dims_sp())) by {
            assert forall|j: int| 0 <= j < cs.len() implies 0 <= #[trigger] cs[j]
                < r1.dims_sp()[j] by {
                if j == d1 {
                    assert(cs[j] == c[d2]);
                } else if j == d2 {
                    assert(cs[j] == c[d1]);
                }
            }
        }
        assert(r2.at(c) == r1.at(cs));
        assert(r1.at(cs) == t.at(swap_coords(cs, d1, d2)));
        assert(swap_coords(cs, d1, d2) =~= c);
    }
    t.lemma_vals_congr(&r2);
    assert(r2.vals() == t.vals()) by {
        assert forall|c: Seq<int>| coords_in(c, t.dims_sp()) implies t.at(c) == #[trigger] r2.at(
            c,
        ) by {}
        t.lemma_vals_congr(&r2);
    }
}

/// Broadcasting addition agrees with explicitly broadcasting both operands
/// to the common shape and adding exactly: the two results hold the same
/// element at every coordinate tuple, and the same row-major values.
pub proof fn lemma_broadcast_add_agrees(
    a: Tensor,
    b: Tensor,
    va: Tensor,
    vb: Tensor,
    t1: Tensor,
    t2: Tensor,
    s: Seq<int>,
    dt: DType,
)
    requires
        a.wf(),
        b.wf(),
        a.dtype_sp() == dt,
        // the broadcasting addition's contract
        t1.wf(),
        t1.dims_sp() == s,
        forall|c: Seq<int>|
            coords_in(c, s) ==> #[trigger] t1.at(c) as int == wrap_val(
                dt,
                a.at(bcast_src(c, a.dims_sp())) + b.at(bcast_src(c, b.dims_sp())),
            ),
        // the two explicit broadcast views' contracts
        va.wf(),
        va.dims_sp() == s,
        forall|c: Seq<int>|
            coords_in(c, s) ==> #[trigger] va.at(c) == a.at(bcast_src(c, a.dims_sp())),
        vb.wf(),
        vb.dims_sp() == s,
        forall|c: Seq<int>|
            coords_in(c, s) ==> #[trigger] vb.at(c) == b.at(bcast_src(c, b.dims_sp())),
        // the exact addition's contract on the views
        t2.wf(),
        t2.dims_sp() == s,
        forall|c: Seq<int>|
            coords_in(c, s) ==> #[trigger] t2.at(c) as int == wrap_val(dt, va.at(c) + vb.at(c)),
    ensures
        forall|c: Seq<int>| coords_in(c, s) ==> #[trigger] t1.at(c) == t2.at(c),
        t1.vals() == t2.vals(),
{
    assert forall|c: Seq<int>| coords_in(c, s) implies #[trigger] t1.at(c) == t2.at(c) by {
        assert(t2.at(c) as int == wrap_val(dt, va.at(c) + vb.at(c)));
        assert(va.at(c) == a.at(bcast_src(c, a.dims_sp())));
        assert(vb.at(c) == b.at(bcast_src(c, b.dims_sp())));
    }
    assert forall|c: Seq<int>| coords_in(c, t1.dims_sp()) implies t1.at(c) == #[trigger] t2.at(
        c,
    ) by {}
    t1.lemma_vals_congr(&t2);
}

/// Narrowing an axis-0 concatenation of two tensors back to the first
/// block reproduces the first operand's values exactly, and narrowing the
/// remainder reproduces the second's.
pub proof fn lemma_cat_narrow_roundtrip(a: Tensor, b: Tensor, cc: Tensor, n1: Tensor, n2: Tensor)
    requires
        a.wf(),
        b.wf(),
        cc.wf(),
        n1.wf(),
        n2.wf(),
        a.dims_sp().len() >= 1,
        // the concatenation's contract for the two operands
        cc.dims_sp() == catd_shape(seq![a, b], 0),
        forall|c: Seq<int>|
            #![trigger a.at(c)]
            coords_in(c, a.dims_sp()) ==> cc.at(c.update(0, c[0] + catd_off(seq![a, b], 0, 0)))
                == a.at(c),
        forall|c: Seq<int>|
            #![trigger b.at(c)]
            coords_in(c, b.dims_sp()) ==> cc.at(c.update(0, c[0] + catd_off(seq![a, b], 0, 1)))
                == b.at(c),
        // the two narrowing calls' contracts
        n1.dims_sp() == cc.dims_sp().update(0, a.dims_sp()[0]),
        forall|c: Seq<int>|
            coords_in(c, n1.dims_sp()) ==> #[trigger] n1.at(c) == cc.at(c.update(0, c[0] + 0)),
        n2.dims_sp() == cc.dims_sp().update(0, b.dims_sp()[0]),
        forall|c: Seq<int>|
            coords_in(c, n2.dims_sp()) ==> #[trigger] n2.at(c) == cc.at(
                c.update(0, c[0] + a.dims_sp()[0]),
            ),
        b.dims_sp().len() == a.dims_sp().len(),
        forall|j: int|
            1 <= j < a.dims_sp().len() ==> #[trigger] b.dims_sp()[j] == a.dims_sp()[j],
    ensures
        n1.dims_sp() == a.dims_sp(),
        forall|c: Seq<int>| coords_in(c, a.dims_sp()) ==> #[trigger] n1.at(c) == a.at(c),
        n1.vals() == a.vals(),
        n2.dims_sp() == b.dims_sp(),
        forall|c: Seq<int>| coords_in(c, b.dims_sp()) ==> #[trigger] n2.at(c) == b.at(c),
        n2.vals() == b.vals(),
{
    let args = seq![a, b];
    assert(args[0] == a && args[1] == b);
    assert(catd_sum(args, 0, 2) == 0);
    assert(catd_sum(args, 0, 1) == b.dims_sp()[0]);
    assert(catd_sum(args, 0, 0) == a.dims_sp()[0] + b.dims_sp()[0]);
    assert(catd_off(args, 0, 0) == 0);
    assert(catd_off(args, 0, 1) == a.dims_sp()[0]);
    assert(n1.dims_sp() =~= a.dims_sp());
    assert(n2.dims_sp() =~= b.dims_sp());
    assert forall|c: Seq<int>| coords_in(c, a.dims_sp()) implies #[trigger] n1.at(c) == a.at(
        c,
    ) by {
        assert(n1.at(c) == cc.at(c.update(0, c[0] + 0)));
        assert(cc.at(c.update(0, c[0] + catd_off(args, 0, 0))) == a.at(c));
    }
    assert forall|c: Seq<int>| coords_in(c, b.dims_sp()) implies #[trigger] n2.at(c) == b.at(
        c,
    ) by {
        assert(n2.at(c) == cc.at(c.update(0, c[0] + a.dims_sp()[0])));
        assert(cc.at(c.update(0, c[0] + catd_off(args, 0, 1))) == b.at(c));
    }
    assert forall|c: Seq<int>| coords_in(c, a.dims_sp()) implies a.at(c) == #[trigger] n1.at(
        c,
    ) by {}
    a.lemma_vals_congr(&n1);
    assert forall|c: Seq<int>| coords_in(c, b.dims_sp()) implies b.at(c) == #[trigger] n2.at(
        c,
    ) by {}
    b.lemma_vals_congr(&n2);
}

} // verus!
