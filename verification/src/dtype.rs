//! Element types and devices. Storage keeps every element as an `i64`; the
//! dtype tag restricts the range a stored value may take and fixes the
//! wrap-around behaviour of the arithmetic kernels.

use vstd::prelude::*;
use vstd::arithmetic::div_mod::{lemma_fundamental_div_mod_converse, lemma_small_mod};
use vstd::wrapping::i64_specs;

verus! {

/// The element type of a tensor's storage.
#[derive(Clone, Copy, Debug, PartialEq, Eq, Hash, Structural)]
pub enum DType {
    U8,
    U32,
    I64,
}

/// The device holding a tensor's storage. The in-process backend is the only
/// one here; accelerator backends are outside collaborators.
#[derive(Clone, Copy, Debug, PartialEq, Eq, Hash, Structural)]
pub enum Device {
    Cpu,
}

impl Device {
    /// Whether two devices are one location.
    pub fn same_device(&self, rhs: &Device) -> (r: bool)
        ensures
            r == (*self == *rhs),
    {
        match (self, rhs) {
            (Device::Cpu, Device::Cpu) => true,
        }
    }
}

/// The range of values a storage element of dtype `dt` may hold.
pub open spec fn in_dtype(dt: DType, v: int) -> bool {
    match dt {
        DType::U8 => 0 <= v < 0x100,
        DType::U32 => 0 <= v < 0x1_0000_0000,
        DType::I64 => i64::MIN <= v <= i64::MAX,
    }
}

/// An arbitrary integer brought into the range of dtype `dt` by wrapping:
/// reduction modulo the type's cardinality, with the signed type folded into
/// its two's-complement range.
pub open spec fn wrap_val(dt: DType, x: int) -> int {
    match dt {
        DType::U8 => x % 0x100,
        DType::U32 => x % 0x1_0000_0000,
        DType::I64 => i64_specs::signed_crop(x) as int,
    }
}

pub proof fn lemma_wrap_in_dtype(dt: DType, x: int)
    ensures
        in_dtype(dt, wrap_val(dt, x)),
{
    match dt {
        DType::U8 => {
            vstd::arithmetic::div_mod::lemma_mod_division_less_than_divisor(x, 0x100);
            vstd::arithmetic::div_mod::lemma_mod_bound(x, 0x100);
        },
        DType::U32 => {
            vstd::arithmetic::div_mod::lemma_mod_bound(x, 0x1_0000_0000);
        },
        DType::I64 => {
            vstd::arithmetic::div_mod::lemma_mod_bound(x, 0x1_0000_0000_0000_0000);
        },
    }
}

/// Wrapping a value already in range leaves it unchanged.
pub proof fn lemma_wrap_id(dt: DType, x: int)
    requires
        in_dtype(dt, x),
    ensures
        wrap_val(dt, x) == x,
{
    match dt {
        DType::U8 => {
            lemma_small_mod(x as nat, 0x100);
        },
        DType::U32 => {
            lemma_small_mod(x as nat, 0x1_0000_0000);
        },
        DType::I64 => {
            let m = 0x1_0000_0000_0000_0000;
            if x >= 0 {
                lemma_small_mod(x as nat, m as nat);
            } else {
                lemma_fundamental_div_mod_converse(x, m, -1, x + m);
            }
        },
    }
}

/// Values congruent modulo the dtype's cardinality wrap to one value.
pub proof fn lemma_wrap_congruent(dt: DType, x: int, k: int)
    ensures
        wrap_val(dt, x + k * modulus(dt)) == wrap_val(dt, x),
{
    let m = modulus(dt);
    vstd::arithmetic::div_mod::lemma_mod_multiples_vanish(k, x, m);
    assert(k * m + x == x + k * m);
}

/// The cardinality of a dtype's value range.
pub open spec fn modulus(dt: DType) -> int {
    match dt {
        DType::U8 => 0x100,
        DType::U32 => 0x1_0000_0000,
        DType::I64 => 0x1_0000_0000_0000_0000,
    }
}

/// Wrapping may be done before or after adding more terms.
pub proof fn lemma_wrap_absorb(dt: DType, x: int, y: int)
    ensures
        wrap_val(dt, wrap_val(dt, x) + y) == wrap_val(dt, x + y),
{
    let m = modulus(dt);
    vstd::arithmetic::div_mod::lemma_fundamental_div_mod(x, m);
    let q = x / m;
    assert(x % m == x - q * m);
    match dt {
        DType::U8 | DType::U32 => {
            assert(wrap_val(dt, x) == x - q * m);
            assert(x - q * m + y == (x + y) + (-q) * m) by (nonlinear_arith);
            lemma_wrap_congruent(dt, x + y, -q);
        },
        DType::I64 => {
            if x % m > i64::MAX {
                assert(wrap_val(dt, x) == x % m - m);
                assert(x % m - m + y == (x + y) + (-q - 1) * m) by (nonlinear_arith)
                    requires
                        x % m == x - q * m,
                ;
                lemma_wrap_congruent(dt, x + y, -q - 1);
            } else {
                assert(wrap_val(dt, x) == x - q * m);
                assert(x - q * m + y == (x + y) + (-q) * m) by (nonlinear_arith);
                lemma_wrap_congruent(dt, x + y, -q);
            }
        },
    }
}

/// Wrapping addition of two in-range values.
pub fn wrap_add(dt: DType, a: i64, b: i64) -> (r: i64)
    requires
        in_dtype(dt, a as int),
        in_dtype(dt, b as int),
    ensures
        r as int == wrap_val(dt, a + b),
        in_dtype(dt, r as int),
{
    proof {
        lemma_wrap_in_dtype(dt, a + b);
    }
    match dt {
        DType::U8 => {
            let s: i64 = a + b;
            proof {
                if s < 0x100 {
                    lemma_small_mod(s as nat, 0x100);
                } else {
                    lemma_fundamental_div_mod_converse(s as int, 0x100, 1, s - 0x100);
                }
            }
            if s < 0x100 {
                s
            } else {
                s - 0x100
            }
        },
        DType::U32 => {
            let s: i64 = a + b;
            proof {
                if s < 0x1_0000_0000 {
                    lemma_small_mod(s as nat, 0x1_0000_0000);
                } else {
                    lemma_fundamental_div_mod_converse(s as int, 0x1_0000_0000, 1, s
                        - 0x1_0000_0000);
                }
            }
            if s < 0x1_0000_0000 {
                s
            } else {
                s - 0x1_0000_0000
            }
        },
        DType::I64 => {
            proof {
                lemma_signed_crop_fold(a + b);
            }
            a.wrapping_add(b)
        },
    }
}

/// The one-step fold agrees with reduction modulo `2^64` on any value within
/// one modulus of the `i64` range.
proof fn lemma_signed_crop_fold(x: int)
    requires
        2 * (i64::MIN as int) <= x <= 2 * (i64::MAX as int) + 1,
    ensures
        i64_specs::signed_crop(x) as int == if x > i64::MAX {
            x - 0x1_0000_0000_0000_0000
        } else if x < i64::MIN {
            x + 0x1_0000_0000_0000_0000
        } else {
            x
        },
{
    let m = 0x1_0000_0000_0000_0000;
    if x > i64::MAX {
        lemma_fundamental_div_mod_converse(x, m, 0, x);
    } else if x < i64::MIN {
        lemma_fundamental_div_mod_converse(x, m, -1, x + m);
    } else if x >= 0 {
        lemma_fundamental_div_mod_converse(x, m, 0, x);
    } else {
        lemma_fundamental_div_mod_converse(x, m, -1, x + m);
    }
}

/// Wrapping subtraction of two in-range values.
pub fn wrap_sub(dt: DType, a: i64, b: i64) -> (r: i64)
    requires
        in_dtype(dt, a as int),
        in_dtype(dt, b as int),
    ensures
        r as int == wrap_val(dt, a - b),
        in_dtype(dt, r as int),
{
    proof {
        lemma_wrap_in_dtype(dt, a - b);
    }
    match dt {
        DType::U8 => {
            proof {
                if a >= b {
                    lemma_small_mod((a - b) as nat, 0x100);
                } else {
                    lemma_fundamental_div_mod_converse(a - b, 0x100, -1, a - b + 0x100);
                }
            }
            if a >= b {
                a - b
            } else {
                a - b + 0x100
            }
        },
        DType::U32 => {
            proof {
                if a >= b {
                    lemma_small_mod((a - b) as nat, 0x1_0000_0000);
                } else {
                    lemma_fundamental_div_mod_converse(a - b, 0x1_0000_0000, -1, a - b
                        + 0x1_0000_0000);
                }
            }
            if a >= b {
                a - b
            } else {
                a - b + 0x1_0000_0000
            }
        },
        DType::I64 => {
            proof {
                lemma_signed_crop_fold(a - b);
            }
            a.wrapping_sub(b)
        },
    }
}

/// Wrapping multiplication of two in-range values.
pub fn wrap_mul(dt: DType, a: i64, b: i64) -> (r: i64)
    requires
        in_dtype(dt, a as int),
        in_dtype(dt, b as int),
    ensures
        r as int == wrap_val(dt, a * b),
        in_dtype(dt, r as int),
{
    proof {
        lemma_wrap_in_dtype(dt, a * b);
    }
    match dt {
        DType::U8 => {
            let pa: u64 = a as u64;
            let pb: u64 = b as u64;
            proof {
                assert(0 <= a * b < 0x10000) by (nonlinear_arith)
                    requires
                        0 <= a < 0x100,
                        0 <= b < 0x100,
                ;
            }
            let p: u64 = pa * pb;
            let r: u64 = p % 0x100;
            proof {
                vstd::arithmetic::div_mod::lemma_mod_bound(p as int, 0x100);
            }
            r as i64
        },
        DType::U32 => {
            let pa: u64 = a as u64;
            let pb: u64 = b as u64;
            proof {
                assert(0 <= a * b < 0xFFFF_FFFF_FFFF_FFFF) by (nonlinear_arith)
                    requires
                        0 <= a < 0x1_0000_0000,
                        0 <= b < 0x1_0000_0000,
                ;
            }
            let p: u64 = pa * pb;
            let r: u64 = p % 0x1_0000_0000;
            proof {
                vstd::arithmetic::div_mod::lemma_mod_bound(p as int, 0x1_0000_0000);
            }
            r as i64
        },
        DType::I64 => {
            a.wrapping_mul(b)
        },
    }
}

/// A value cast into dtype `dt`, with the narrowing conversions truncating as
/// the machine's integer casts do.
pub fn cast_val(dt: DType, v: i64) -> (r: i64)
    ensures
        r as int == wrap_val(dt, v as int),
        in_dtype(dt, r as int),
{
    proof {
        lemma_wrap_in_dtype(dt, v as int);
    }
    match dt {
        DType::U8 => {
            let r: u64 = to_unsigned(v) % 0x100;
            proof {
                lemma_unsigned_rep_mod(v, 0x100, r as int);
            }
            r as i64
        },
        DType::U32 => {
            let r: u64 = to_unsigned(v) % 0x1_0000_0000;
            proof {
                lemma_unsigned_rep_mod(v, 0x1_0000_0000, r as int);
            }
            r as i64
        },
        DType::I64 => {
            proof {
                lemma_wrap_id(DType::I64, v as int);
            }
            v
        },
    }
}

/// The unsigned value congruent to `v` modulo `2^64`.
fn to_unsigned(v: i64) -> (r: u64)
    ensures
        r as int == v + if v < 0 {
            0x1_0000_0000_0000_0000int
        } else {
            0int
        },
{
    if v >= 0 {
        v as u64
    } else {
        let d: i64 = v - i64::MIN;
        (d as u64) + 0x8000_0000_0000_0000u64
    }
}

/// Reducing the unsigned representative of `v` modulo a divisor of `2^64`
/// agrees with reducing `v` itself.
proof fn lemma_unsigned_rep_mod(v: i64, m: int, r: int)
    requires
        m == 0x100 || m == 0x1_0000_0000,
        r == (v + if v < 0 {
            0x1_0000_0000_0000_0000int
        } else {
            0int
        }) % m,
    ensures
        r == wrap_val(if m == 0x100 {
            DType::U8
        } else {
            DType::U32
        }, v as int),
{
    let dt = if m == 0x100 {
        DType::U8
    } else {
        DType::U32
    };
    if v < 0 {
        let k = 0x1_0000_0000_0000_0000int / m;
        assert(k * m == 0x1_0000_0000_0000_0000);
        lemma_wrap_congruent(dt, v as int, k);
        assert(v + k * m == v + 0x1_0000_0000_0000_0000);
    }
}

} // verus!
