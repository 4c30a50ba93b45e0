//! Elementwise operations: binary arithmetic on tensors of one shape, the
//! broadcasting wrappers that align shapes first, unary maps, the affine
//! transform, comparisons, and selection by a condition tensor.

use vstd::prelude::*;
use crate::dims::{
    bcast_src, broadcast_ok, coords_in, flat_of, ints, lemma_shape_ok_suffix, phys, prod, shape_ok,
};
use crate::dtype::{in_dtype, wrap_val, DType};
use crate::error::Error;
use crate::op::{BackpropOp, BinaryOp, CmpOp, Op, UnaryOp};
use crate::shape::clone_dims;
use crate::tensor::{from_storage, Tensor};

verus! {

/// The value an elementwise binary operation stores, given the dtype's
/// wrap-around behaviour: arithmetic wraps into the dtype's range, the
/// lattice operations pick a side, and division truncates toward zero.
pub open spec fn bin_val(op: BinaryOp, dt: DType, a: int, b: int) -> int {
    match op {
        BinaryOp::Add => wrap_val(dt, a + b),
        BinaryOp::Sub => wrap_val(dt, a - b),
        BinaryOp::Mul => wrap_val(dt, a * b),
        BinaryOp::Div => tdiv(a, b),
        BinaryOp::Maximum => if a >= b {
            a
        } else {
            b
        },
        BinaryOp::Minimum => if a <= b {
            a
        } else {
            b
        },
    }
}

/// Truncating (round toward zero) integer division, as machine division
/// computes it: Euclidean division of the magnitude, with the dividend's
/// sign restored.
pub open spec fn tdiv(a: int, b: int) -> int {
    if a >= 0 {
        a / b
    } else {
        -((-a) / b)
    }
}

/// Whether an elementwise binary operation is defined on a pair of values:
/// division excludes zero divisors and the one overflowing quotient.
pub open spec fn bin_defined(op: BinaryOp, a: int, b: int) -> bool {
    match op {
        BinaryOp::Div => b != 0 && !(a == i64::MIN && b == -1),
        _ => true,
    }
}

/// Truncating division of two in-range machine integers.
pub(crate) fn div_by(a: i64, b: i64) -> (r: i64)
    requires
        b != 0,
        !(a == i64::MIN && b == -1),
    ensures
        r as int == tdiv(a as int, b as int),
{
    div_i64(a, b)
}

/// The quotient of an unsigned-dtype value by a positive count stays in range.
pub(crate) proof fn lemma_tdiv_unsigned_pub(dt: DType, a: int, b: int)
    requires
        dt == DType::U8 || dt == DType::U32,
        in_dtype(dt, a),
        b >= 1,
    ensures
        in_dtype(dt, tdiv(a, b)),
        tdiv(a, b) == a / b,
{
    lemma_tdiv_unsigned(dt, a, b);
}

/// Truncating division of two in-range machine integers.
fn div_i64(a: i64, b: i64) -> (r: i64)
    requires
        b != 0,
        !(a == i64::MIN && b == -1),
    ensures
        r as int == tdiv(a as int, b as int),
{
    proof {
        lemma_tdiv_bounds(a as int, b as int);
    }
    a / b
}

/// The truncating quotient of two machine integers fits the machine, except
/// for the one excluded overflowing pair.
pub(crate) proof fn lemma_tdiv_bounds(a: int, b: int)
    requires
        i64::MIN <= a <= i64::MAX,
        i64::MIN <= b <= i64::MAX,
        b != 0,
        !(a == i64::MIN && b == -1),
    ensures
        i64::MIN <= tdiv(a, b) <= i64::MAX,
{
    if a >= 0 {
        let x = a / b;
        let m = a % b;
        vstd::arithmetic::div_mod::lemma_fundamental_div_mod(a, b);
        vstd::arithmetic::div_mod::lemma_mod_bound(a, if b > 0 {
            b
        } else {
            -b
        });
        if b > 0 {
            assert(0 <= x && x <= a) by (nonlinear_arith)
                requires
                    a == b * x + m,
                    0 <= m < b,
                    a >= 0,
                    b >= 1,
            ;
        } else {
            assert(x <= 0 && -x <= a) by (nonlinear_arith)
                requires
                    a == b * x + m,
                    0 <= m < -b,
                    a >= 0,
                    b <= -1,
            ;
        }
        assert(tdiv(a, b) == x);
    } else {
        let na = -a;
        let x = na / b;
        let m = na % b;
        vstd::arithmetic::div_mod::lemma_fundamental_div_mod(na, b);
        vstd::arithmetic::div_mod::lemma_mod_bound(na, if b > 0 {
            b
        } else {
            -b
        });
        assert(tdiv(a, b) == -x);
        if b > 0 {
            assert(0 <= x && x <= na) by (nonlinear_arith)
                requires
                    na == b * x + m,
                    0 <= m < b,
                    na >= 1,
                    b >= 1,
            ;
        } else if b == -1 {
            assert(x == -na) by (nonlinear_arith)
                requires
                    na == b * x + m,
                    0 <= m,
                    m < 1,
                    b == -1,
            ;
            assert(na <= i64::MAX);
        } else {
            assert(0 <= -x && 2 * (-x) <= na) by (nonlinear_arith)
                requires
                    na == b * x + m,
                    0 <= m < -b,
                    na >= 1,
                    b <= -2,
            ;
        }
    }
}

/// One elementwise binary kernel step.
fn bin_step(op: BinaryOp, dt: DType, a: i64, b: i64) -> (r: i64)
    requires
        in_dtype(dt, a as int),
        in_dtype(dt, b as int),
        bin_defined(op, a as int, b as int),
    ensures
        r as int == bin_val(op, dt, a as int, b as int),
        in_dtype(dt, r as int),
{
    match op {
        BinaryOp::Add => crate::dtype::wrap_add(dt, a, b),
        BinaryOp::Sub => crate::dtype::wrap_sub(dt, a, b),
        BinaryOp::Mul => crate::dtype::wrap_mul(dt, a, b),
        BinaryOp::Div => {
            let r = div_i64(a, b);
            proof {
                match dt {
                    DType::U8 | DType::U32 => {
                        lemma_tdiv_unsigned(dt, a as int, b as int);
                    },
                    DType::I64 => {},
                }
            }
            r
        },
        BinaryOp::Maximum => if a >= b {
            a
        } else {
            b
        },
        BinaryOp::Minimum => if a <= b {
            a
        } else {
            b
        },
    }
}

/// The quotient of an unsigned-dtype value by a positive divisor stays in
/// range; for the signed dtype every representable quotient is in range by
/// type.
proof fn lemma_tdiv_unsigned(dt: DType, a: int, b: int)
    requires
        dt == DType::U8 || dt == DType::U32,
        in_dtype(dt, a),
        b >= 1,
    ensures
        in_dtype(dt, tdiv(a, b)),
        tdiv(a, b) == a / b,
{
    vstd::arithmetic::div_mod::lemma_div_pos_is_pos(a, b);
    vstd::arithmetic::div_mod::lemma_div_nonincreasing(a, b);
}

impl Tensor {
    /// The shared pattern of every exact-shape elementwise binary operation:
    /// validate shape and dtype, run the kernel over both operands in
    /// row-major order, and wrap the result with a graph edge.
    fn binary_impl(&self, rhs: &Tensor, op: BinaryOp, opname: &'static str) -> (r: Result<
        Tensor,
        Error,
    >)
        requires
            self.wf(),
            rhs.wf(),
            forall|c: Seq<int>|
                coords_in(c, self.dims_sp()) ==> bin_defined(
                    op,
                    #[trigger] self.at(c) as int,
                    rhs.at(c) as int,
                ),
        ensures
            match r {
                Ok(t) => {
                    &&& self.dims_sp() == rhs.dims_sp()
                    &&& self.dtype_sp() == rhs.dtype_sp()
                    &&& t.wf()
                    &&& t.dims_sp() == self.dims_sp()
                    &&& t.dtype_sp() == self.dtype_sp()
                    &&& t.device_sp() == self.device_sp()
                    &&& forall|c: Seq<int>|
                        coords_in(c, self.dims_sp()) ==> #[trigger] t.at(c) as int == bin_val(
                            op,
                            self.dtype_sp(),
                            self.at(c) as int,
                            rhs.at(c) as int,
                        )
                },
                Err(e) => {
                    ||| (self.dims_sp() != rhs.dims_sp() && (e matches Error::ShapeMismatchBinaryOp {
                        lhs,
                        rhs: r2,
                        ..
                    } && lhs@ == self.dims_sp() && r2@ == rhs.dims_sp()))
                    ||| (self.dims_sp() == rhs.dims_sp() && self.dtype_sp() != rhs.dtype_sp()
                        && (e matches Error::DTypeMismatchBinaryOp { .. }))
                },
            },
    {
        if !dims_equal(self.dims(), rhs.dims()) {
            return Err(
                Error::ShapeMismatchBinaryOp {
                    lhs: self.shape().clone(),
                    rhs: rhs.shape().clone(),
                    op: opname,
                },
            );
        }
        if !dtype_same(self.dtype(), rhs.dtype()) {
            return Err(
                Error::DTypeMismatchBinaryOp { lhs: self.dtype(), rhs: rhs.dtype(), op: opname },
            );
        }
        let dt = self.dtype();
        let va = self.materialize_self();
        let vb = rhs.materialize_self();
        proof {
            self.lemma_vals_len();
            rhs.lemma_vals_len();
            self.lemma_dims_nonneg();
            assert forall|i: int| 0 <= i < va@.len() implies bin_defined(
                op,
                #[trigger] va@[i] as int,
                vb@[i] as int,
            ) by {
                lemma_pair_elem(self, rhs, i);
            }
        }
        let n = va.len();
        let mut out: Vec<i64> = Vec::new();
        let mut i: usize = 0;
        while i < n
            invariant
                0 <= i <= n,
                n == va@.len(),
                n == vb@.len(),
                out@.len() == i,
                forall|k: int| 0 <= k < n ==> in_dtype(dt, #[trigger] va@[k] as int),
                forall|k: int| 0 <= k < n ==> in_dtype(dt, #[trigger] vb@[k] as int),
                forall|k: int| 0 <= k < n ==> bin_defined(op, #[trigger] va@[k] as int, vb@[k] as int),
                forall|k: int| 0 <= k < i ==> #[trigger] out@[k] as int == bin_val(
                    op,
                    dt,
                    va@[k] as int,
                    vb@[k] as int,
                ),
                forall|k: int| 0 <= k < i ==> in_dtype(dt, #[trigger] out@[k] as int),
            decreases n - i,
        {
            out.push(bin_step(op, dt, va[i], vb[i]));
            i = i + 1;
        }
        let opedge = BackpropOp::new2(self, rhs, Op::Binary(self.clone(), rhs.clone(), op));
        let t = from_storage(
            out,
            self.shape().clone(),
            opedge,
            false,
            dt,
            *self.device(),
            self.fresh_id_with(rhs),
        );
        proof {
            assert forall|c: Seq<int>| coords_in(c, self.dims_sp()) implies #[trigger] t.at(c)
                as int == bin_val(op, self.dtype_sp(), self.at(c) as int, rhs.at(c) as int) by {
                self.lemma_at_vals(c);
                rhs.lemma_at_vals(c);
                t.lemma_at_vals(c);
            }
        }
        Ok(t)
    }
}

/// Both views read equal-length value sequences; position `i` of each is the
/// element at one common coordinate tuple.
proof fn lemma_pair_elem(a: &Tensor, b: &Tensor, i: int)
    requires
        a.wf(),
        b.wf(),
        a.dims_sp() == b.dims_sp(),
        0 <= i < a.vals().len(),
    ensures
        b.vals().len() == a.vals().len(),
        exists|c: Seq<int>|
            coords_in(c, a.dims_sp()) && #[trigger] a.vals()[i] == a.at(c) && b.vals()[i] == b.at(
                c,
            ),
{
    a.lemma_vals_len();
    b.lemma_vals_len();
    a.lemma_dims_nonneg();
    crate::dims::lemma_flat_all_elem(a.st(), a.dims_sp(), a.strides_sp(), a.off_sp(), i);
    let c = choose|c: Seq<int>|
        coords_in(c, a.dims_sp()) && flat_of(c, a.dims_sp()) == i && a.vals()[i] == a.st()[
            #[trigger] phys(a.off_sp(), c, a.strides_sp())
        ];
    a.lemma_at_vals(c);
    b.lemma_at_vals(c);
    assert(a.vals()[i] == a.at(c));
    assert(b.vals()[i] == b.at(c));
}

/// Whether two dimension vectors are equal.
pub(crate) fn dims_equal(a: &Vec<usize>, b: &Vec<usize>) -> (r: bool)
    ensures
        r == (ints(a@) == ints(b@)),
{
    if a.len() != b.len() {
        proof {
            assert(ints(a@).len() != ints(b@).len());
        }
        return false;
    }
    let n = a.len();
    let mut i: usize = 0;
    while i < n
        invariant
            0 <= i <= n,
            n == a@.len(),
            n == b@.len(),
            forall|k: int| 0 <= k < i ==> #[trigger] a@[k] == b@[k],
        decreases n - i,
    {
        if a[i] != b[i] {
            proof {
                assert(ints(a@)[i as int] != ints(b@)[i as int]);
            }
            return false;
        }
        i = i + 1;
    }
    proof {
        assert(ints(a@) =~= ints(b@));
    }
    true
}

/// Whether two dtype tags are equal.
pub(crate) fn dtype_same(a: DType, b: DType) -> (r: bool)
    ensures
        r == (a == b),
{
    match (a, b) {
        (DType::U8, DType::U8) => true,
        (DType::U32, DType::U32) => true,
        (DType::I64, DType::I64) => true,
        _ => false,
    }
}

} // verus!

verus! {

impl Tensor {
    /// Elementwise addition, wrapping in the dtype's range.
    pub fn add(&self, rhs: &Tensor) -> (r: Result<Tensor, Error>)
        requires
            self.wf(),
            rhs.wf(),
        ensures
            match r {
                Ok(t) => {
                    &&& self.dims_sp() == rhs.dims_sp()
                    &&& self.dtype_sp() == rhs.dtype_sp()
                    &&& t.wf()
                    &&& t.dims_sp() == self.dims_sp()
                    &&& t.dtype_sp() == self.dtype_sp()
                    &&& t.device_sp() == self.device_sp()
                    &&& forall|c: Seq<int>|
                        coords_in(c, self.dims_sp()) ==> #[trigger] t.at(c) as int == wrap_val(
                            self.dtype_sp(),
                            self.at(c) + rhs.at(c),
                        )
                },
                Err(_) => self.dims_sp() != rhs.dims_sp() || self.dtype_sp() != rhs.dtype_sp(),
            },
    {
        self.binary_impl(rhs, BinaryOp::Add, "add")
    }

    /// Elementwise subtraction, wrapping in the dtype's range.
    pub fn sub(&self, rhs: &Tensor) -> (r: Result<Tensor, Error>)
        requires
            self.wf(),
            rhs.wf(),
        ensures
            match r {
                Ok(t) => {
                    &&& self.dims_sp() == rhs.dims_sp()
                    &&& self.dtype_sp() == rhs.dtype_sp()
                    &&& t.wf()
                    &&& t.dims_sp() == self.dims_sp()
                    &&& t.dtype_sp() == self.dtype_sp()
                    &&& t.device_sp() == self.device_sp()
                    &&& forall|c: Seq<int>|
                        coords_in(c, self.dims_sp()) ==> #[trigger] t.at(c) as int == wrap_val(
                            self.dtype_sp(),
                            self.at(c) - rhs.at(c),
                        )
                },
                Err(_) => self.dims_sp() != rhs.dims_sp() || self.dtype_sp() != rhs.dtype_sp(),
            },
    {
        self.binary_impl(rhs, BinaryOp::Sub, "sub")
    }

    /// Elementwise multiplication, wrapping in the dtype's range.
    pub fn mul(&self, rhs: &Tensor) -> (r: Result<Tensor, Error>)
        requires
            self.wf(),
            rhs.wf(),
        ensures
            match r {
                Ok(t) => {
                    &&& self.dims_sp() == rhs.dims_sp()
                    &&& self.dtype_sp() == rhs.dtype_sp()
                    &&& t.wf()
                    &&& t.dims_sp() == self.dims_sp()
                    &&& t.dtype_sp() == self.dtype_sp()
                    &&& t.device_sp() == self.device_sp()
                    &&& forall|c: Seq<int>|
                        coords_in(c, self.dims_sp()) ==> #[trigger] t.at(c) as int == wrap_val(
                            self.dtype_sp(),
                            self.at(c) * rhs.at(c),
                        )
                },
                Err(_) => self.dims_sp() != rhs.dims_sp() || self.dtype_sp() != rhs.dtype_sp(),
            },
    {
        self.binary_impl(rhs, BinaryOp::Mul, "mul")
    }

    /// Elementwise truncating division. The divisor tensor must be free of
    /// zeros, and of `-1` under a dividend at the signed minimum.
    pub fn div(&self, rhs: &Tensor) -> (r: Result<Tensor, Error>)
        requires
            self.wf(),
            rhs.wf(),
            forall|c: Seq<int>|
                coords_in(c, self.dims_sp()) ==> bin_defined(
                    BinaryOp::Div,
                    #[trigger] self.at(c) as int,
                    rhs.at(c) as int,
                ),
        ensures
            match r {
                Ok(t) => {
                    &&& self.dims_sp() == rhs.dims_sp()
                    &&& self.dtype_sp() == rhs.dtype_sp()
                    &&& t.wf()
                    &&& t.dims_sp() == self.dims_sp()
                    &&& t.dtype_sp() == self.dtype_sp()
                    &&& t.device_sp() == self.device_sp()
                    &&& forall|c: Seq<int>|
                        coords_in(c, self.dims_sp()) ==> #[trigger] t.at(c) as int == tdiv(
                            self.at(c) as int,
                            rhs.at(c) as int,
                        )
                },
                Err(_) => self.dims_sp() != rhs.dims_sp() || self.dtype_sp() != rhs.dtype_sp(),
            },
    {
        self.binary_impl(rhs, BinaryOp::Div, "div")
    }

    /// Elementwise maximum.
    pub fn maximum(&self, rhs: &Tensor) -> (r: Result<Tensor, Error>)
        requires
            self.wf(),
            rhs.wf(),
        ensures
            match r {
                Ok(t) => {
                    &&& self.dims_sp() == rhs.dims_sp()
                    &&& self.dtype_sp() == rhs.dtype_sp()
                    &&& t.wf()
                    &&& t.dims_sp() == self.dims_sp()
                    &&& t.dtype_sp() == self.dtype_sp()
                    &&& t.device_sp() == self.device_sp()
                    &&& forall|c: Seq<int>|
                        coords_in(c, self.dims_sp()) ==> #[trigger] t.at(c) == (if self.at(c)
                            >= rhs.at(c) {
                            self.at(c)
                        } else {
                            rhs.at(c)
                        })
                },
                Err(_) => self.dims_sp() != rhs.dims_sp() || self.dtype_sp() != rhs.dtype_sp(),
            },
    {
        self.binary_impl(rhs, BinaryOp::Maximum, "maximum")
    }

    /// Elementwise minimum.
    pub fn minimum(&self, rhs: &Tensor) -> (r: Result<Tensor, Error>)
        requires
            self.wf(),
            rhs.wf(),
        ensures
            match r {
                Ok(t) => {
                    &&& self.dims_sp() == rhs.dims_sp()
                    &&& self.dtype_sp() == rhs.dtype_sp()
                    &&& t.wf()
                    &&& t.dims_sp() == self.dims_sp()
                    &&& t.dtype_sp() == self.dtype_sp()
                    &&& t.device_sp() == self.device_sp()
                    &&& forall|c: Seq<int>|
                        coords_in(c, self.dims_sp()) ==> #[trigger] t.at(c) == (if self.at(c)
                            <= rhs.at(c) {
                            self.at(c)
                        } else {
                            rhs.at(c)
                        })
                },
                Err(_) => self.dims_sp() != rhs.dims_sp() || self.dtype_sp() != rhs.dtype_sp(),
            },
    {
        self.binary_impl(rhs, BinaryOp::Minimum, "minimum")
    }
}

} // verus!

verus! {

/// Whether two shapes broadcast against each other: aligned from the
/// trailing dimension, each overlapping pair matches or has a one.
pub open spec fn bcast_pair_ok(l: Seq<int>, r: Seq<int>) -> bool {
    forall|j: int|
        0 <= j < (if l.len() <= r.len() {
            l.len()
        } else {
            r.len()
        }) ==> {
            let lv = #[trigger] l[l.len() - 1 - j];
            let rv = r[r.len() - 1 - j];
            lv == rv || lv == 1 || rv == 1
        }
}

/// The common shape of two broadcast-compatible shapes: aligned from the
/// trailing dimension, the wider of each pair, with the longer shape's
/// leading dimensions kept.
pub open spec fn bcast_shape(l: Seq<int>, r: Seq<int>) -> Seq<int> {
    let n = if l.len() >= r.len() {
        l.len()
    } else {
        r.len()
    };
    Seq::new(
        n as nat,
        |k: int|
            {
                let il = k - (n - l.len());
                let ir = k - (n - r.len());
                if il < 0 {
                    r[ir]
                } else if ir < 0 {
                    l[il]
                } else if l[il] == 1 {
                    r[ir]
                } else {
                    l[il]
                }
            },
    )
}

/// A broadcast-compatible pair's shapes both broadcast to their common shape.
pub proof fn lemma_bcast_shape_ok(l: Seq<int>, r: Seq<int>)
    requires
        bcast_pair_ok(l, r),
    ensures
        crate::dims::broadcast_ok(l, bcast_shape(l, r)),
        crate::dims::broadcast_ok(r, bcast_shape(l, r)),
{
    let d = bcast_shape(l, r);
    assert forall|j: int| 0 <= j < l.len() implies #[trigger] l[j] == d[d.len() - l.len() + j]
        || l[j] == 1 by {
        let jj = l.len() - 1 - j;
        if jj < (if l.len() <= r.len() {
            l.len()
        } else {
            r.len()
        }) {
            assert(l[l.len() - 1 - jj] == r[r.len() - 1 - jj] || l[l.len() - 1 - jj] == 1 || r[
                r.len() - 1 - jj] == 1);
        }
    }
    assert forall|j: int| 0 <= j < r.len() implies #[trigger] r[j] == d[d.len() - r.len() + j]
        || r[j] == 1 by {
        let jj = r.len() - 1 - j;
        if jj < (if l.len() <= r.len() {
            l.len()
        } else {
            r.len()
        }) {
            assert(l[l.len() - 1 - jj] == r[r.len() - 1 - jj] || l[l.len() - 1 - jj] == 1 || r[
                r.len() - 1 - jj] == 1);
        }
    }
}

impl Tensor {
    /// Computes the broadcast-common shape of this tensor and `rhs`, or the
    /// shape-mismatch error naming the operation.
    fn bcast_common(&self, rhs: &Tensor, opname: &'static str) -> (r: Result<Vec<usize>, Error>)
        requires
            self.wf(),
            rhs.wf(),
        ensures
            match r {
                Ok(v) => {
                    &&& bcast_pair_ok(self.dims_sp(), rhs.dims_sp())
                    &&& ints(v@) == bcast_shape(self.dims_sp(), rhs.dims_sp())
                },
                Err(e) => {
                    &&& !bcast_pair_ok(self.dims_sp(), rhs.dims_sp())
                    &&& e matches Error::ShapeMismatchBinaryOp { .. }
                },
            },
    {
        let ghost ld = self.dims_sp();
        let ghost rd = rhs.dims_sp();
        let ldims = self.dims();
        let rdims = rhs.dims();
        let nl = ldims.len();
        let nr = rdims.len();
        let n = if nl >= nr {
            nl
        } else {
            nr
        };
        let ghost nmin: int = if nl <= nr {
            nl as int
        } else {
            nr as int
        };
        let ghost target = bcast_shape(ld, rd);
        let mut out: Vec<usize> = Vec::new();
        let mut k: usize = 0;
        while k < n
            invariant
                0 <= k <= n,
                nl == ldims@.len(),
                nr == rdims@.len(),
                ld == ints(ldims@),
                rd == ints(rdims@),
                ld == self.dims_sp(),
                rd == rhs.dims_sp(),
                n == (if nl >= nr {
                    nl
                } else {
                    nr
                }),
                nmin == (if nl <= nr {
                    nl as int
                } else {
                    nr as int
                }),
                target == bcast_shape(ld, rd),
                out@.len() == k,
                forall|i: int| 0 <= i < k ==> ints(out@)[i] == #[trigger] target[i],
                forall|j: int|
                    n - nmin <= j < k ==> {
                        let lv = #[trigger] ld[j - (n - ld.len())];
                        let rv = rd[j - (n - rd.len())];
                        lv == rv || lv == 1 || rv == 1
                    },
            decreases n - k,
        {
            let il_ok = nl >= n - k;
            let ir_ok = nr >= n - k;
            let v: usize = if il_ok && ir_ok {
                let lv = ldims[k - (n - nl)];
                let rv = rdims[k - (n - nr)];
                if lv == rv {
                    lv
                } else if lv == 1 {
                    rv
                } else if rv == 1 {
                    lv
                } else {
                    proof {
                        let ki = k as int;
                        assert(ld[ki - (n - ld.len())] == lv as int);
                        assert(rd[ki - (n - rd.len())] == rv as int);
                        assert(!bcast_pair_ok(ld, rd)) by {
                            if bcast_pair_ok(ld, rd) {
                                let jj = n - 1 - ki;
                                assert(0 <= jj < nmin);
                                assert({
                                    let lvx = ld[ld.len() - 1 - jj];
                                    let rvx = rd[rd.len() - 1 - jj];
                                    lvx == rvx || lvx == 1 || rvx == 1
                                });
                                assert(ld.len() - 1 - jj == ki - (n - ld.len()));
                                assert(rd.len() - 1 - jj == ki - (n - rd.len()));
                            }
                        }
                    }
                    return Err(
                        Error::ShapeMismatchBinaryOp {
                            lhs: self.shape().clone(),
                            rhs: rhs.shape().clone(),
                            op: opname,
                        },
                    );
                }
            } else if il_ok {
                ldims[k - (n - nl)]
            } else {
                rdims[k - (n - nr)]
            };
            out.push(v);
            proof {
                assert forall|i: int|
                    0 <= i < k + 1 implies ints(out@)[i] == #[trigger] target[i] by {
                    if i == k {
                        assert(ints(out@)[i] == v as int);
                    }
                }
            }
            k = k + 1;
        }
        proof {
            assert(ints(out@) =~= target);
            assert forall|j: int| 0 <= j < nmin implies {
                let lv = #[trigger] ld[ld.len() - 1 - j];
                let rv = rd[rd.len() - 1 - j];
                lv == rv || lv == 1 || rv == 1
            } by {
                let jpos = n - 1 - j;
                assert(n - nmin <= jpos < n);
                assert({
                    let lv = ld[jpos - (n - ld.len())];
                    let rv = rd[jpos - (n - rd.len())];
                    lv == rv || lv == 1 || rv == 1
                });
                assert(jpos - (n - ld.len()) == ld.len() - 1 - j);
                assert(jpos - (n - rd.len()) == rd.len() - 1 - j);
            }
            assert(bcast_pair_ok(ld, rd));
        }
        Ok(out)
    }
}

} // verus!

verus! {

impl Tensor {
    /// The shared pattern of the broadcasting binary operations: compute the
    /// common shape, insert zero-copy broadcast views on both operands, and
    /// delegate to the exact-shape operation.
    fn broadcast_binary(&self, rhs: &Tensor, op: BinaryOp, opname: &'static str) -> (r: Result<
        Tensor,
        Error,
    >)
        requires
            self.wf(),
            rhs.wf(),
            bcast_pair_ok(self.dims_sp(), rhs.dims_sp()) ==> shape_ok(
                bcast_shape(self.dims_sp(), rhs.dims_sp()),
            ),
            forall|c: Seq<int>|
                coords_in(c, bcast_shape(self.dims_sp(), rhs.dims_sp())) ==> bin_defined(
                    op,
                    #[trigger] self.at(bcast_src(c, self.dims_sp())) as int,
                    rhs.at(bcast_src(c, rhs.dims_sp())) as int,
                ),
        ensures
            match r {
                Ok(t) => {
                    &&& bcast_pair_ok(self.dims_sp(), rhs.dims_sp())
                    &&& self.dtype_sp() == rhs.dtype_sp()
                    &&& t.wf()
                    &&& t.dims_sp() == bcast_shape(self.dims_sp(), rhs.dims_sp())
                    &&& t.dtype_sp() == self.dtype_sp()
                    &&& t.device_sp() == self.device_sp()
                    &&& forall|c: Seq<int>|
                        coords_in(c, t.dims_sp()) ==> #[trigger] t.at(c) as int == bin_val(
                            op,
                            self.dtype_sp(),
                            self.at(bcast_src(c, self.dims_sp())) as int,
                            rhs.at(bcast_src(c, rhs.dims_sp())) as int,
                        )
                },
                Err(_) => !bcast_pair_ok(self.dims_sp(), rhs.dims_sp()) || self.dtype_sp()
                    != rhs.dtype_sp(),
            },
    {
        let ghost ld = self.dims_sp();
        let ghost rd = rhs.dims_sp();
        let common = match self.bcast_common(rhs, opname) {
            Ok(v) => v,
            Err(e) => {
                return Err(e);
            },
        };
        proof {
            lemma_bcast_shape_ok(ld, rd);
        }
        let lb = match self.broadcast_as(&common) {
            Ok(t) => t,
            Err(e) => {
                proof {
                    assert(false);
                }
                return Err(e);
            },
        };
        let rb = match rhs.broadcast_as(&common) {
            Ok(t) => t,
            Err(e) => {
                proof {
                    assert(false);
                }
                return Err(e);
            },
        };
        proof {
            assert forall|c: Seq<int>|
                coords_in(c, lb.dims_sp()) implies bin_defined(
                op,
                #[trigger] lb.at(c) as int,
                rb.at(c) as int,
            ) by {
                assert(lb.at(c) == self.at(bcast_src(c, ld)));
                assert(rb.at(c) == rhs.at(bcast_src(c, rd)));
                assert(bin_defined(
                    op,
                    self.at(bcast_src(c, ld)) as int,
                    rhs.at(bcast_src(c, rd)) as int,
                ));
            }
        }
        let r = lb.binary_impl(&rb, op, opname);
        match r {
            Ok(t) => {
                proof {
                    assert forall|c: Seq<int>| coords_in(c, t.dims_sp()) implies #[trigger] t.at(c)
                        as int == bin_val(
                        op,
                        self.dtype_sp(),
                        self.at(bcast_src(c, ld)) as int,
                        rhs.at(bcast_src(c, rd)) as int,
                    ) by {
                        assert(t.at(c) as int == bin_val(
                            op,
                            lb.dtype_sp(),
                            lb.at(c) as int,
                            rb.at(c) as int,
                        ));
                        assert(lb.at(c) == self.at(bcast_src(c, ld)));
                        assert(rb.at(c) == rhs.at(bcast_src(c, rd)));
                    }
                }
                Ok(t)
            },
            Err(e) => {
                proof {
                    assert(lb.dims_sp() == rb.dims_sp());
                    assert(lb.dtype_sp() != rb.dtype_sp());
                }
                Err(e)
            },
        }
    }

    /// Broadcasting elementwise addition.
    pub fn broadcast_add(&self, rhs: &Tensor) -> (r: Result<Tensor, Error>)
        requires
            self.wf(),
            rhs.wf(),
            bcast_pair_ok(self.dims_sp(), rhs.dims_sp()) ==> shape_ok(
                bcast_shape(self.dims_sp(), rhs.dims_sp()),
            ),
        ensures
            match r {
                Ok(t) => {
                    &&& bcast_pair_ok(self.dims_sp(), rhs.dims_sp())
                    &&& self.dtype_sp() == rhs.dtype_sp()
                    &&& t.wf()
                    &&& t.dims_sp() == bcast_shape(self.dims_sp(), rhs.dims_sp())
                    &&& t.dtype_sp() == self.dtype_sp()
                    &&& t.device_sp() == self.device_sp()
                    &&& forall|c: Seq<int>|
                        coords_in(c, t.dims_sp()) ==> #[trigger] t.at(c) as int == wrap_val(
                            self.dtype_sp(),
                            self.at(bcast_src(c, self.dims_sp())) + rhs.at(
                                bcast_src(c, rhs.dims_sp()),
                            ),
                        )
                },
                Err(_) => !bcast_pair_ok(self.dims_sp(), rhs.dims_sp()) || self.dtype_sp()
                    != rhs.dtype_sp(),
            },
    {
        self.broadcast_binary(rhs, BinaryOp::Add, "broadcast_add")
    }

    /// Broadcasting elementwise subtraction.
    pub fn broadcast_sub(&self, rhs: &Tensor) -> (r: Result<Tensor, Error>)
        requires
            self.wf(),
            rhs.wf(),
            bcast_pair_ok(self.dims_sp(), rhs.dims_sp()) ==> shape_ok(
                bcast_shape(self.dims_sp(), rhs.dims_sp()),
            ),
        ensures
            match r {
                Ok(t) => {
                    &&& bcast_pair_ok(self.dims_sp(), rhs.dims_sp())
                    &&& self.dtype_sp() == rhs.dtype_sp()
                    &&& t.wf()
                    &&& t.dims_sp() == bcast_shape(self.dims_sp(), rhs.dims_sp())
                    &&& t.dtype_sp() == self.dtype_sp()
                    &&& t.device_sp() == self.device_sp()
                    &&& forall|c: Seq<int>|
                        coords_in(c, t.dims_sp()) ==> #[trigger] t.at(c) as int == wrap_val(
                            self.dtype_sp(),
                            self.at(bcast_src(c, self.dims_sp())) - rhs.at(
                                bcast_src(c, rhs.dims_sp()),
                            ),
                        )
                },
                Err(_) => !bcast_pair_ok(self.dims_sp(), rhs.dims_sp()) || self.dtype_sp()
                    != rhs.dtype_sp(),
            },
    {
        self.broadcast_binary(rhs, BinaryOp::Sub, "broadcast_sub")
    }

    /// Broadcasting elementwise multiplication.
    pub fn broadcast_mul(&self, rhs: &Tensor) -> (r: Result<Tensor, Error>)
        requires
            self.wf(),
            rhs.wf(),
            bcast_pair_ok(self.dims_sp(), rhs.dims_sp()) ==> shape_ok(
                bcast_shape(self.dims_sp(), rhs.dims_sp()),
            ),
        ensures
            match r {
                Ok(t) => {
                    &&& bcast_pair_ok(self.dims_sp(), rhs.dims_sp())
                    &&& self.dtype_sp() == rhs.dtype_sp()
                    &&& t.wf()
                    &&& t.dims_sp() == bcast_shape(self.dims_sp(), rhs.dims_sp())
                    &&& t.dtype_sp() == self.dtype_sp()
                    &&& t.device_sp() == self.device_sp()
                    &&& forall|c: Seq<int>|
                        coords_in(c, t.dims_sp()) ==> #[trigger] t.at(c) as int == wrap_val(
                            self.dtype_sp(),
                            self.at(bcast_src(c, self.dims_sp())) * rhs.at(
                                bcast_src(c, rhs.dims_sp()),
                            ),
                        )
                },
                Err(_) => !bcast_pair_ok(self.dims_sp(), rhs.dims_sp()) || self.dtype_sp()
                    != rhs.dtype_sp(),
            },
    {
        self.broadcast_binary(rhs, BinaryOp::Mul, "broadcast_mul")
    }

    /// Broadcasting elementwise truncating division.
    pub fn broadcast_div(&self, rhs: &Tensor) -> (r: Result<Tensor, Error>)
        requires
            self.wf(),
            rhs.wf(),
            bcast_pair_ok(self.dims_sp(), rhs.dims_sp()) ==> shape_ok(
                bcast_shape(self.dims_sp(), rhs.dims_sp()),
            ),
            forall|c: Seq<int>|
                coords_in(c, bcast_shape(self.dims_sp(), rhs.dims_sp())) ==> bin_defined(
                    BinaryOp::Div,
                    #[trigger] self.at(bcast_src(c, self.dims_sp())) as int,
                    rhs.at(bcast_src(c, rhs.dims_sp())) as int,
                ),
        ensures
            match r {
                Ok(t) => {
                    &&& bcast_pair_ok(self.dims_sp(), rhs.dims_sp())
                    &&& self.dtype_sp() == rhs.dtype_sp()
                    &&& t.wf()
                    &&& t.dims_sp() == bcast_shape(self.dims_sp(), rhs.dims_sp())
                    &&& t.dtype_sp() == self.dtype_sp()
                    &&& t.device_sp() == self.device_sp()
                    &&& forall|c: Seq<int>|
                        coords_in(c, t.dims_sp()) ==> #[trigger] t.at(c) as int == tdiv(
                            self.at(bcast_src(c, self.dims_sp())) as int,
                            rhs.at(bcast_src(c, rhs.dims_sp())) as int,
                        )
                },
                Err(_) => !bcast_pair_ok(self.dims_sp(), rhs.dims_sp()) || self.dtype_sp()
                    != rhs.dtype_sp(),
            },
    {
        self.broadcast_binary(rhs, BinaryOp::Div, "broadcast_div")
    }

    /// Broadcasting elementwise maximum.
    pub fn broadcast_maximum(&self, rhs: &Tensor) -> (r: Result<Tensor, Error>)
        requires
            self.wf(),
            rhs.wf(),
            bcast_pair_ok(self.dims_sp(), rhs.dims_sp()) ==> shape_ok(
                bcast_shape(self.dims_sp(), rhs.dims_sp()),
            ),
        ensures
            match r {
                Ok(t) => {
                    &&& t.wf()
                    &&& t.dims_sp() == bcast_shape(self.dims_sp(), rhs.dims_sp())
                    &&& t.dtype_sp() == self.dtype_sp()
                    &&& forall|c: Seq<int>|
                        coords_in(c, t.dims_sp()) ==> #[trigger] t.at(c) as int == bin_val(
                            BinaryOp::Maximum,
                            self.dtype_sp(),
                            self.at(bcast_src(c, self.dims_sp())) as int,
                            rhs.at(bcast_src(c, rhs.dims_sp())) as int,
                        )
                },
                Err(_) => !bcast_pair_ok(self.dims_sp(), rhs.dims_sp()) || self.dtype_sp()
                    != rhs.dtype_sp(),
            },
    {
        self.broadcast_binary(rhs, BinaryOp::Maximum, "broadcast_maximum")
    }

    /// Broadcasting elementwise minimum.
    pub fn broadcast_minimum(&self, rhs: &Tensor) -> (r: Result<Tensor, Error>)
        requires
            self.wf(),
            rhs.wf(),
            bcast_pair_ok(self.dims_sp(), rhs.dims_sp()) ==> shape_ok(
                bcast_shape(self.dims_sp(), rhs.dims_sp()),
            ),
        ensures
            match r {
                Ok(t) => {
                    &&& t.wf()
                    &&& t.dims_sp() == bcast_shape(self.dims_sp(), rhs.dims_sp())
                    &&& t.dtype_sp() == self.dtype_sp()
                    &&& forall|c: Seq<int>|
                        coords_in(c, t.dims_sp()) ==> #[trigger] t.at(c) as int == bin_val(
                            BinaryOp::Minimum,
                            self.dtype_sp(),
                            self.at(bcast_src(c, self.dims_sp())) as int,
                            rhs.at(bcast_src(c, rhs.dims_sp())) as int,
                        )
                },
                Err(_) => !bcast_pair_ok(self.dims_sp(), rhs.dims_sp()) || self.dtype_sp()
                    != rhs.dtype_sp(),
            },
    {
        self.broadcast_binary(rhs, BinaryOp::Minimum, "broadcast_minimum")
    }
}

} // verus!

verus! {

/// The value an elementwise unary operation stores.
pub open spec fn un_val(op: UnaryOp, dt: DType, a: int) -> int {
    match op {
        UnaryOp::Neg => wrap_val(dt, -a),
        UnaryOp::Abs => if a < 0 {
            wrap_val(dt, -a)
        } else {
            a
        },
        UnaryOp::Sqr => wrap_val(dt, a * a),
        UnaryOp::Relu => if a >= 0 {
            a
        } else {
            0
        },
    }
}

/// One elementwise unary kernel step.
fn un_step(op: UnaryOp, dt: DType, a: i64) -> (r: i64)
    requires
        in_dtype(dt, a as int),
    ensures
        r as int == un_val(op, dt, a as int),
        in_dtype(dt, r as int),
{
    match op {
        UnaryOp::Neg => crate::dtype::wrap_sub(dt, 0, a),
        UnaryOp::Abs => if a < 0 {
            crate::dtype::wrap_sub(dt, 0, a)
        } else {
            a
        },
        UnaryOp::Sqr => crate::dtype::wrap_mul(dt, a, a),
        UnaryOp::Relu => if a >= 0 {
            a
        } else {
            proof {
                assert(in_dtype(dt, 0));
            }
            0
        },
    }
}

impl Tensor {
    /// The shared pattern of the elementwise unary operations.
    fn unary_impl(&self, op: UnaryOp) -> (r: Result<Tensor, Error>)
        requires
            self.wf(),
        ensures
            match r {
                Ok(t) => {
                    &&& t.wf()
                    &&& t.dims_sp() == self.dims_sp()
                    &&& t.dtype_sp() == self.dtype_sp()
                    &&& t.device_sp() == self.device_sp()
                    &&& forall|c: Seq<int>|
                        coords_in(c, self.dims_sp()) ==> #[trigger] t.at(c) as int == un_val(
                            op,
                            self.dtype_sp(),
                            self.at(c) as int,
                        )
                },
                Err(_) => false,
            },
    {
        let dt = self.dtype();
        let va = self.materialize_self();
        let n = va.len();
        let mut out: Vec<i64> = Vec::new();
        let mut i: usize = 0;
        while i < n
            invariant
                0 <= i <= n,
                n == va@.len(),
                out@.len() == i,
                forall|k: int| 0 <= k < n ==> in_dtype(dt, #[trigger] va@[k] as int),
                forall|k: int| 0 <= k < i ==> #[trigger] out@[k] as int == un_val(
                    op,
                    dt,
                    va@[k] as int,
                ),
                forall|k: int| 0 <= k < i ==> in_dtype(dt, #[trigger] out@[k] as int),
            decreases n - i,
        {
            out.push(un_step(op, dt, va[i]));
            i = i + 1;
        }
        proof {
            self.lemma_vals_len();
        }
        let opedge = BackpropOp::new1(self, Op::Unary(self.clone(), op));
        let t = from_storage(
            out,
            self.shape().clone(),
            opedge,
            false,
            dt,
            *self.device(),
            self.fresh_id(),
        );
        proof {
            assert forall|c: Seq<int>| coords_in(c, self.dims_sp()) implies #[trigger] t.at(c)
                as int == un_val(op, self.dtype_sp(), self.at(c) as int) by {
                self.lemma_at_vals(c);
                t.lemma_at_vals(c);
            }
        }
        Ok(t)
    }

    /// Elementwise negation, wrapping in the dtype's range.
    pub fn neg(&self) -> (r: Result<Tensor, Error>)
        requires
            self.wf(),
        ensures
            match r {
                Ok(t) => {
                    &&& t.wf()
                    &&& t.dims_sp() == self.dims_sp()
                    &&& t.dtype_sp() == self.dtype_sp()
                    &&& t.device_sp() == self.device_sp()
                    &&& forall|c: Seq<int>|
                        coords_in(c, self.dims_sp()) ==> #[trigger] t.at(c) as int == wrap_val(
                            self.dtype_sp(),
                            -self.at(c),
                        )
                },
                Err(_) => false,
            },
    {
        self.unary_impl(UnaryOp::Neg)
    }

    /// Elementwise absolute value; the signed minimum wraps to itself.
    pub fn abs(&self) -> (r: Result<Tensor, Error>)
        requires
            self.wf(),
        ensures
            match r {
                Ok(t) => {
                    &&& t.wf()
                    &&& t.dims_sp() == self.dims_sp()
                    &&& t.dtype_sp() == self.dtype_sp()
                    &&& t.device_sp() == self.device_sp()
                    &&& forall|c: Seq<int>|
                        coords_in(c, self.dims_sp()) ==> #[trigger] t.at(c) as int == un_val(
                            UnaryOp::Abs,
                            self.dtype_sp(),
                            self.at(c) as int,
                        )
                },
                Err(_) => false,
            },
    {
        self.unary_impl(UnaryOp::Abs)
    }

    /// Elementwise square, wrapping in the dtype's range.
    pub fn sqr(&self) -> (r: Result<Tensor, Error>)
        requires
            self.wf(),
        ensures
            match r {
                Ok(t) => {
                    &&& t.wf()
                    &&& t.dims_sp() == self.dims_sp()
                    &&& t.dtype_sp() == self.dtype_sp()
                    &&& t.device_sp() == self.device_sp()
                    &&& forall|c: Seq<int>|
                        coords_in(c, self.dims_sp()) ==> #[trigger] t.at(c) as int == wrap_val(
                            self.dtype_sp(),
                            self.at(c) * self.at(c),
                        )
                },
                Err(_) => false,
            },
    {
        self.unary_impl(UnaryOp::Sqr)
    }

    /// Elementwise rectified linear unit: negative values become zero.
    pub fn relu(&self) -> (r: Result<Tensor, Error>)
        requires
            self.wf(),
        ensures
            match r {
                Ok(t) => {
                    &&& t.wf()
                    &&& t.dims_sp() == self.dims_sp()
                    &&& t.dtype_sp() == self.dtype_sp()
                    &&& t.device_sp() == self.device_sp()
                    &&& forall|c: Seq<int>|
                        coords_in(c, self.dims_sp()) ==> #[trigger] t.at(c) == (if self.at(c) >= 0 {
                            self.at(c)
                        } else {
                            0
                        })
                },
                Err(_) => false,
            },
    {
        self.unary_impl(UnaryOp::Relu)
    }

    /// Multiplies every element by `mul` and then adds `add`, with both
    /// scalars first brought into the tensor's dtype and the arithmetic
    /// wrapping in it.
    pub fn affine(&self, mul: i64, add: i64) -> (r: Result<Tensor, Error>)
        requires
            self.wf(),
        ensures
            match r {
                Ok(t) => {
                    &&& t.wf()
                    &&& t.dims_sp() == self.dims_sp()
                    &&& t.dtype_sp() == self.dtype_sp()
                    &&& t.device_sp() == self.device_sp()
                    &&& forall|c: Seq<int>|
                        coords_in(c, self.dims_sp()) ==> #[trigger] t.at(c) as int == wrap_val(
                            self.dtype_sp(),
                            self.at(c) * wrap_val(self.dtype_sp(), mul as int) + wrap_val(
                                self.dtype_sp(),
                                add as int,
                            ),
                        )
                },
                Err(_) => false,
            },
    {
        let dt = self.dtype();
        let mw = crate::dtype::cast_val(dt, mul);
        let aw = crate::dtype::cast_val(dt, add);
        let va = self.materialize_self();
        let n = va.len();
        let mut out: Vec<i64> = Vec::new();
        let mut i: usize = 0;
        while i < n
            invariant
                0 <= i <= n,
                n == va@.len(),
                out@.len() == i,
                mw as int == wrap_val(dt, mul as int),
                aw as int == wrap_val(dt, add as int),
                in_dtype(dt, mw as int),
                in_dtype(dt, aw as int),
                forall|k: int| 0 <= k < n ==> in_dtype(dt, #[trigger] va@[k] as int),
                forall|k: int| 0 <= k < i ==> #[trigger] out@[k] as int == wrap_val(
                    dt,
                    va@[k] * mw + aw,
                ),
                forall|k: int| 0 <= k < i ==> in_dtype(dt, #[trigger] out@[k] as int),
            decreases n - i,
        {
            let p = crate::dtype::wrap_mul(dt, va[i], mw);
            let v = crate::dtype::wrap_add(dt, p, aw);
            proof {
                crate::dtype::lemma_wrap_absorb(dt, va@[i as int] * mw, aw as int);
            }
            out.push(v);
            i = i + 1;
        }
        proof {
            self.lemma_vals_len();
        }
        let opedge = BackpropOp::new1(self, Op::Affine { arg: self.clone(), mul, add });
        let t = from_storage(
            out,
            self.shape().clone(),
            opedge,
            false,
            dt,
            *self.device(),
            self.fresh_id(),
        );
        proof {
            assert forall|c: Seq<int>| coords_in(c, self.dims_sp()) implies #[trigger] t.at(c)
                as int == wrap_val(
                self.dtype_sp(),
                self.at(c) * wrap_val(self.dtype_sp(), mul as int) + wrap_val(
                    self.dtype_sp(),
                    add as int,
                ),
            ) by {
                self.lemma_at_vals(c);
                t.lemma_at_vals(c);
            }
        }
        Ok(t)
    }
}

} // verus!

verus! {

/// The boolean-like value an elementwise comparison stores: 1 where the
/// comparison holds, 0 elsewhere.
pub open spec fn cmp_val(op: CmpOp, a: int, b: int) -> int {
    let holds = match op {
        CmpOp::Eq => a == b,
        CmpOp::Ne => a != b,
        CmpOp::Le => a <= b,
        CmpOp::Ge => a >= b,
        CmpOp::Lt => a < b,
        CmpOp::Gt => a > b,
    };
    if holds {
        1
    } else {
        0
    }
}

impl Tensor {
    /// Elementwise comparison of two tensors of one shape and dtype; the
    /// result holds 1 where the comparison holds and 0 elsewhere, with
    /// dtype `U8`.
    pub fn cmp(&self, rhs: &Tensor, op: CmpOp) -> (r: Result<Tensor, Error>)
        requires
            self.wf(),
            rhs.wf(),
        ensures
            match r {
                Ok(t) => {
                    &&& self.dims_sp() == rhs.dims_sp()
                    &&& self.dtype_sp() == rhs.dtype_sp()
                    &&& t.wf()
                    &&& t.dims_sp() == self.dims_sp()
                    &&& t.dtype_sp() == DType::U8
                    &&& t.device_sp() == self.device_sp()
                    &&& forall|c: Seq<int>|
                        coords_in(c, self.dims_sp()) ==> #[trigger] t.at(c) as int == cmp_val(
                            op,
                            self.at(c) as int,
                            rhs.at(c) as int,
                        )
                },
                Err(e) => {
                    ||| (self.dims_sp() != rhs.dims_sp() && (e matches Error::ShapeMismatchBinaryOp {
                        lhs,
                        rhs: r2,
                        ..
                    } && lhs@ == self.dims_sp() && r2@ == rhs.dims_sp()))
                    ||| (self.dims_sp() == rhs.dims_sp() && self.dtype_sp() != rhs.dtype_sp()
                        && (e matches Error::DTypeMismatchBinaryOp { .. }))
                },
            },
    {
        if !dims_equal(self.dims(), rhs.dims()) {
            return Err(
                Error::ShapeMismatchBinaryOp {
                    lhs: self.shape().clone(),
                    rhs: rhs.shape().clone(),
                    op: "cmp",
                },
            );
        }
        if !dtype_same(self.dtype(), rhs.dtype()) {
            return Err(
                Error::DTypeMismatchBinaryOp { lhs: self.dtype(), rhs: rhs.dtype(), op: "cmp" },
            );
        }
        let va = self.materialize_self();
        let vb = rhs.materialize_self();
        proof {
            self.lemma_vals_len();
            rhs.lemma_vals_len();
        }
        let n = va.len();
        let mut out: Vec<i64> = Vec::new();
        let mut i: usize = 0;
        while i < n
            invariant
                0 <= i <= n,
                n == va@.len(),
                n == vb@.len(),
                out@.len() == i,
                forall|k: int| 0 <= k < i ==> #[trigger] out@[k] as int == cmp_val(
                    op,
                    va@[k] as int,
                    vb@[k] as int,
                ),
                forall|k: int| 0 <= k < i ==> in_dtype(DType::U8, #[trigger] out@[k] as int),
            decreases n - i,
        {
            let holds = match op {
                CmpOp::Eq => va[i] == vb[i],
                CmpOp::Ne => va[i] != vb[i],
                CmpOp::Le => va[i] <= vb[i],
                CmpOp::Ge => va[i] >= vb[i],
                CmpOp::Lt => va[i] < vb[i],
                CmpOp::Gt => va[i] > vb[i],
            };
            out.push(if holds { 1 } else { 0 });
            i = i + 1;
        }
        let opedge = BackpropOp::new2(self, rhs, Op::Cmp(self.clone(), op));
        let t = from_storage(
            out,
            self.shape().clone(),
            opedge,
            false,
            DType::U8,
            *self.device(),
            self.fresh_id_with(rhs),
        );
        proof {
            assert forall|c: Seq<int>| coords_in(c, self.dims_sp()) implies #[trigger] t.at(c)
                as int == cmp_val(op, self.at(c) as int, rhs.at(c) as int) by {
                self.lemma_at_vals(c);
                rhs.lemma_at_vals(c);
                t.lemma_at_vals(c);
            }
        }
        Ok(t)
    }

    /// Elementwise equality test.
    pub fn eq(&self, rhs: &Tensor) -> (r: Result<Tensor, Error>)
        requires
            self.wf(),
            rhs.wf(),
        ensures
            match r {
                Ok(t) => {
                    &&& self.dims_sp() == rhs.dims_sp()
                    &&& t.wf()
                    &&& t.dims_sp() == self.dims_sp()
                    &&& t.dtype_sp() == DType::U8
                    &&& forall|c: Seq<int>|
                        coords_in(c, self.dims_sp()) ==> #[trigger] t.at(c) as int == cmp_val(
                            CmpOp::Eq,
                            self.at(c) as int,
                            rhs.at(c) as int,
                        )
                },
                Err(_) => self.dims_sp() != rhs.dims_sp() || self.dtype_sp() != rhs.dtype_sp(),
            },
    {
        self.cmp(rhs, CmpOp::Eq)
    }

    /// Elementwise inequality test.
    pub fn ne(&self, rhs: &Tensor) -> (r: Result<Tensor, Error>)
        requires
            self.wf(),
            rhs.wf(),
        ensures
            match r {
                Ok(t) => {
                    &&& self.dims_sp() == rhs.dims_sp()
                    &&& t.wf()
                    &&& t.dims_sp() == self.dims_sp()
                    &&& t.dtype_sp() == DType::U8
                    &&& forall|c: Seq<int>|
                        coords_in(c, self.dims_sp()) ==> #[trigger] t.at(c) as int == cmp_val(
                            CmpOp::Ne,
                            self.at(c) as int,
                            rhs.at(c) as int,
                        )
                },
                Err(_) => self.dims_sp() != rhs.dims_sp() || self.dtype_sp() != rhs.dtype_sp(),
            },
    {
        self.cmp(rhs, CmpOp::Ne)
    }

    /// Elementwise less-than test.
    pub fn lt(&self, rhs: &Tensor) -> (r: Result<Tensor, Error>)
        requires
            self.wf(),
            rhs.wf(),
        ensures
            match r {
                Ok(t) => {
                    &&& self.dims_sp() == rhs.dims_sp()
                    &&& t.wf()
                    &&& t.dims_sp() == self.dims_sp()
                    &&& t.dtype_sp() == DType::U8
                    &&& forall|c: Seq<int>|
                        coords_in(c, self.dims_sp()) ==> #[trigger] t.at(c) as int == cmp_val(
                            CmpOp::Lt,
                            self.at(c) as int,
                            rhs.at(c) as int,
                        )
                },
                Err(_) => self.dims_sp() != rhs.dims_sp() || self.dtype_sp() != rhs.dtype_sp(),
            },
    {
        self.cmp(rhs, CmpOp::Lt)
    }

    /// Elementwise greater-than test.
    pub fn gt(&self, rhs: &Tensor) -> (r: Result<Tensor, Error>)
        requires
            self.wf(),
            rhs.wf(),
        ensures
            match r {
                Ok(t) => {
                    &&& self.dims_sp() == rhs.dims_sp()
                    &&& t.wf()
                    &&& t.dims_sp() == self.dims_sp()
                    &&& t.dtype_sp() == DType::U8
                    &&& forall|c: Seq<int>|
                        coords_in(c, self.dims_sp()) ==> #[trigger] t.at(c) as int == cmp_val(
                            CmpOp::Gt,
                            self.at(c) as int,
                            rhs.at(c) as int,
                        )
                },
                Err(_) => self.dims_sp() != rhs.dims_sp() || self.dtype_sp() != rhs.dtype_sp(),
            },
    {
        self.cmp(rhs, CmpOp::Gt)
    }

    /// Elementwise greater-or-equal test.
    pub fn ge(&self, rhs: &Tensor) -> (r: Result<Tensor, Error>)
        requires
            self.wf(),
            rhs.wf(),
        ensures
            match r {
                Ok(t) => {
                    &&& self.dims_sp() == rhs.dims_sp()
                    &&& t.wf()
                    &&& t.dims_sp() == self.dims_sp()
                    &&& t.dtype_sp() == DType::U8
                    &&& forall|c: Seq<int>|
                        coords_in(c, self.dims_sp()) ==> #[trigger] t.at(c) as int == cmp_val(
                            CmpOp::Ge,
                            self.at(c) as int,
                            rhs.at(c) as int,
                        )
                },
                Err(_) => self.dims_sp() != rhs.dims_sp() || self.dtype_sp() != rhs.dtype_sp(),
            },
    {
        self.cmp(rhs, CmpOp::Ge)
    }

    /// Elementwise less-or-equal test.
    pub fn le(&self, rhs: &Tensor) -> (r: Result<Tensor, Error>)
        requires
            self.wf(),
            rhs.wf(),
        ensures
            match r {
                Ok(t) => {
                    &&& self.dims_sp() == rhs.dims_sp()
                    &&& t.wf()
                    &&& t.dims_sp() == self.dims_sp()
                    &&& t.dtype_sp() == DType::U8
                    &&& forall|c: Seq<int>|
                        coords_in(c, self.dims_sp()) ==> #[trigger] t.at(c) as int == cmp_val(
                            CmpOp::Le,
                            self.at(c) as int,
                            rhs.at(c) as int,
                        )
                },
                Err(_) => self.dims_sp() != rhs.dims_sp() || self.dtype_sp() != rhs.dtype_sp(),
            },
    {
        self.cmp(rhs, CmpOp::Le)
    }

    /// Selects elementwise from `on_true` where this tensor is nonzero and
    /// from `on_false` where it is zero. All three tensors share one shape;
    /// the two branches share one dtype, which the result takes.
    pub fn where_cond(&self, on_true: &Tensor, on_false: &Tensor) -> (r: Result<Tensor, Error>)
        requires
            self.wf(),
            on_true.wf(),
            on_false.wf(),
        ensures
            match r {
                Ok(t) => {
                    &&& self.dims_sp() == on_true.dims_sp()
                    &&& self.dims_sp() == on_false.dims_sp()
                    &&& on_true.dtype_sp() == on_false.dtype_sp()
                    &&& t.wf()
                    &&& t.dims_sp() == self.dims_sp()
                    &&& t.dtype_sp() == on_true.dtype_sp()
                    &&& t.device_sp() == self.device_sp()
                    &&& forall|c: Seq<int>|
                        coords_in(c, self.dims_sp()) ==> #[trigger] t.at(c) == (if self.at(c) != 0 {
                            on_true.at(c)
                        } else {
                            on_false.at(c)
                        })
                },
                Err(_) => self.dims_sp() != on_true.dims_sp() || self.dims_sp()
                    != on_false.dims_sp() || on_true.dtype_sp() != on_false.dtype_sp(),
            },
    {
        if !dims_equal(self.dims(), on_true.dims()) {
            return Err(
                Error::ShapeMismatchBinaryOp {
                    lhs: self.shape().clone(),
                    rhs: on_true.shape().clone(),
                    op: "where_cond",
                },
            );
        }
        if !dims_equal(self.dims(), on_false.dims()) {
            return Err(
                Error::ShapeMismatchBinaryOp {
                    lhs: self.shape().clone(),
                    rhs: on_false.shape().clone(),
                    op: "where_cond",
                },
            );
        }
        if !dtype_same(on_true.dtype(), on_false.dtype()) {
            return Err(
                Error::DTypeMismatchBinaryOp {
                    lhs: on_true.dtype(),
                    rhs: on_false.dtype(),
                    op: "where_cond",
                },
            );
        }
        let vc = self.materialize_self();
        let vt = on_true.materialize_self();
        let vf = on_false.materialize_self();
        proof {
            self.lemma_vals_len();
            on_true.lemma_vals_len();
            on_false.lemma_vals_len();
        }
        let dt = on_true.dtype();
        let n = vc.len();
        let mut out: Vec<i64> = Vec::new();
        let mut i: usize = 0;
        while i < n
            invariant
                0 <= i <= n,
                n == vc@.len(),
                n == vt@.len(),
                n == vf@.len(),
                out@.len() == i,
                forall|k: int| 0 <= k < n ==> in_dtype(dt, #[trigger] vt@[k] as int),
                forall|k: int| 0 <= k < n ==> in_dtype(dt, #[trigger] vf@[k] as int),
                forall|k: int| 0 <= k < i ==> #[trigger] out@[k] == (if vc@[k] != 0 {
                    vt@[k]
                } else {
                    vf@[k]
                }),
                forall|k: int| 0 <= k < i ==> in_dtype(dt, #[trigger] out@[k] as int),
            decreases n - i,
        {
            out.push(if vc[i] != 0 { vt[i] } else { vf[i] });
            i = i + 1;
        }
        let opedge = BackpropOp::new3(
            self,
            on_true,
            on_false,
            Op::WhereCond(self.clone(), on_true.clone(), on_false.clone()),
        );
        let t = from_storage(
            out,
            self.shape().clone(),
            opedge,
            false,
            dt,
            *self.device(),
            on_false.merge_with(self.fresh_id_with(on_true)),
        );
        proof {
            assert forall|c: Seq<int>| coords_in(c, self.dims_sp()) implies #[trigger] t.at(c) == (
            if self.at(c) != 0 {
                on_true.at(c)
            } else {
                on_false.at(c)
            }) by {
                self.lemma_at_vals(c);
                on_true.lemma_at_vals(c);
                on_false.lemma_at_vals(c);
                t.lemma_at_vals(c);
            }
        }
        Ok(t)
    }
}

} // verus!
