//! Signed 64-bit fixed-point scalars with 32 fractional bits.
//!
//! A scalar with real value `x` is stored as the `i64` nearest `x * 2^32`
//! (one whole unit is `FX_ONE`).  Addition, subtraction and multiplication
//! wrap modulo `2^64` on overflow; division and square root truncate toward
//! zero, and a zero divisor yields zero.  Every operation is total, so the
//! solver never panics, no matter how degenerate its input values are; out
//! of range magnitudes wrap and propagate, the same way non-finite values
//! propagate through a floating-point pipeline.

use vstd::prelude::*;
use vstd::arithmetic::div_mod::*;

verus! {

/// The fixed-point representation of 1.0: `2^32`.
pub const FX_ONE: i64 = 0x1_0000_0000;

/// `2^63` as a mathematical integer.
pub open spec fn two63() -> int {
    0x8000_0000_0000_0000
}

/// `2^64` as a mathematical integer.
pub open spec fn two64() -> int {
    0x1_0000_0000_0000_0000
}

/// The scale factor `2^32` as a mathematical integer.
pub open spec fn fx_unit() -> int {
    0x1_0000_0000
}

/// Reduce an integer into the value range of `i64`, modulo `2^64`.
pub open spec fn wrap64(v: int) -> int {
    let m = v % two64();
    if m >= two63() {
        m - two64()
    } else {
        m
    }
}

/// Absolute value of a mathematical integer.
pub open spec fn iabs(v: int) -> int {
    if v < 0 {
        -v
    } else {
        v
    }
}

/// Division truncated toward zero, with a zero divisor mapped to zero.
pub open spec fn tdiv(a: int, b: int) -> int {
    if b == 0 {
        0
    } else if (a < 0) == (b < 0) {
        iabs(a) / iabs(b)
    } else {
        -(iabs(a) / iabs(b))
    }
}

/// Wrapping fixed-point addition.
pub open spec fn fx_wadd(a: int, b: int) -> int {
    wrap64(a + b)
}

/// Wrapping fixed-point subtraction.
pub open spec fn fx_wsub(a: int, b: int) -> int {
    wrap64(a - b)
}

/// Wrapping fixed-point multiplication: `(a * b) / 2^32`, truncated.
pub open spec fn fx_wmul(a: int, b: int) -> int {
    wrap64(tdiv(a * b, fx_unit()))
}

/// Wrapping fixed-point division: `(a * 2^32) / b`, truncated; 0 when `b == 0`.
pub open spec fn fx_wdiv(a: int, b: int) -> int {
    if b == 0 {
        0
    } else {
        wrap64(tdiv(a * fx_unit(), b))
    }
}

/// The integer square root: the unique `r >= 0` with `r^2 <= n < (r+1)^2`.
pub open spec fn sqrt_val(n: int) -> int {
    choose|r: int| 0 <= r && #[trigger] (r * r) <= n && n < (r + 1) * (r + 1)
}

/// Fixed-point square root: `sqrt(a * 2^32)` truncated, 0 for `a <= 0`.
pub open spec fn fx_wsqrt(a: int) -> int {
    if a <= 0 {
        0
    } else {
        sqrt_val(a * fx_unit())
    }
}

/// `wrap64` always lands in the value range of `i64`.
pub broadcast proof fn lemma_wrap64_bounds(v: int)
    ensures
        -two63() <= #[trigger] wrap64(v) < two63(),
{
    lemma_mod_division_less_than_divisor(v, two64());
}

/// `wrap64` is the identity on values already in the range of `i64`.
pub broadcast proof fn lemma_wrap64_id(v: int)
    requires
        -two63() <= v < two63(),
    ensures
        #[trigger] wrap64(v) == v,
{
    if v >= 0 {
        lemma_small_mod(v as nat, two64() as nat);
    } else {
        lemma_fundamental_div_mod_converse_mod(v, two64(), -1, v + two64());
    }
}

/// Wrapping respects addition of already-wrapped summands: wrapping the sum
/// of a wrapped value and anything else equals wrapping the plain sum.
pub proof fn lemma_wrap64_add(a: int, b: int)
    ensures
        wrap64(wrap64(a) + b) == wrap64(a + b),
{
    lemma_mod_division_less_than_divisor(a, two64());
    if a % two64() >= two63() {
        lemma_fundamental_div_mod(a, two64());
        lemma_mod_sub_multiples_vanish(a + b, two64());
        assert((wrap64(a) + b) % two64() == (a + b) % two64()) by {
            lemma_add_mod_noop(a % two64() - two64(), b, two64());
            lemma_add_mod_noop(a % two64(), b, two64());
            lemma_mod_sub_multiples_vanish(a % two64(), two64());
            lemma_mod_twice(a, two64());
            lemma_add_mod_noop(a, b, two64());
        }
    } else {
        lemma_fundamental_div_mod(a, two64());
        assert((wrap64(a) + b) % two64() == (a + b) % two64()) by {
            lemma_add_mod_noop(a % two64(), b, two64());
            lemma_mod_twice(a, two64());
            lemma_add_mod_noop(a, b, two64());
        }
    }
}

/// Reduce an `i128` intermediate into `i64`, modulo `2^64`.
pub(crate) fn wrap_to_i64(v: i128) -> (r: i64)
    requires
        v > i128::MIN,
    ensures
        r as int == wrap64(v as int),
{
    proof {
        lemma_wrap64_bounds(v as int);
    }
    if v >= 0 {
        let m: u128 = (v as u128) % 0x1_0000_0000_0000_0000u128;
        if m >= 0x8000_0000_0000_0000u128 {
            let d: u128 = 0x1_0000_0000_0000_0000u128 - m;
            if d == 0x8000_0000_0000_0000u128 {
                i64::MIN
            } else {
                -((d as i64))
            }
        } else {
            m as i64
        }
    } else {
        let u: u128 = (-v) as u128;
        let mu: u128 = u % 0x1_0000_0000_0000_0000u128;
        proof {
            lemma_fundamental_div_mod(u as int, two64());
            if mu > 0 {
                lemma_fundamental_div_mod_converse_mod(
                    v as int,
                    two64(),
                    -((u as int) / two64()) - 1,
                    two64() - (mu as int),
                );
            } else {
                lemma_fundamental_div_mod_converse_mod(
                    v as int,
                    two64(),
                    -((u as int) / two64()),
                    0,
                );
            }
        }
        if mu == 0 {
            0
        } else {
            let m: u128 = 0x1_0000_0000_0000_0000u128 - mu;
            if m >= 0x8000_0000_0000_0000u128 {
                let d: u128 = 0x1_0000_0000_0000_0000u128 - m;
                if d == 0x8000_0000_0000_0000u128 {
                    i64::MIN
                } else {
                    -((d as i64))
                }
            } else {
                m as i64
            }
        }
    }
}

/// Wrapping fixed-point addition.
pub fn fx_add(a: i64, b: i64) -> (r: i64)
    ensures
        r as int == fx_wadd(a as int, b as int),
{
    let s: i128 = (a as i128) + (b as i128);
    wrap_to_i64(s)
}

/// Wrapping fixed-point subtraction.
pub fn fx_sub(a: i64, b: i64) -> (r: i64)
    ensures
        r as int == fx_wsub(a as int, b as int),
{
    let s: i128 = (a as i128) - (b as i128);
    wrap_to_i64(s)
}

/// Truncated division of a non-extreme `i128` by a positive divisor.
fn tdiv_i128(p: i128, d: i128) -> (q: i128)
    requires
        p > i128::MIN,
        d > 0,
    ensures
        q as int == tdiv(p as int, d as int),
        q > i128::MIN,
{
    if p >= 0 {
        let qn: u128 = (p as u128) / (d as u128);
        proof {
            lemma_div_nonincreasing(p as int, d as int);
            lemma_div_pos_is_pos(p as int, d as int);
        }
        qn as i128
    } else {
        let np: u128 = (-p) as u128;
        let qn: u128 = np / (d as u128);
        proof {
            lemma_div_nonincreasing(np as int, d as int);
            lemma_div_pos_is_pos(np as int, d as int);
        }
        -(qn as i128)
    }
}

/// Wrapping fixed-point multiplication.
pub fn fx_mul(a: i64, b: i64) -> (r: i64)
    ensures
        r as int == fx_wmul(a as int, b as int),
{
    proof {
        lemma_i64_product_fits(a as int, b as int);
    }
    let p: i128 = (a as i128) * (b as i128);
    let q: i128 = tdiv_i128(p, FX_ONE as i128);
    wrap_to_i64(q)
}

/// Wrapping fixed-point division.
pub fn fx_div(a: i64, b: i64) -> (r: i64)
    ensures
        r as int == fx_wdiv(a as int, b as int),
{
    if b == 0 {
        return 0;
    }
    proof {
        lemma_i64_product_fits(a as int, FX_ONE as int);
    }
    let num: i128 = (a as i128) * (FX_ONE as i128);
    if b > 0 {
        let q: i128 = tdiv_i128(num, b as i128);
        wrap_to_i64(q)
    } else {
        let q: i128 = tdiv_i128(num, -(b as i128));
        proof {
            lemma_tdiv_neg_divisor(num as int, -(b as int));
        }
        wrap_to_i64(-q)
    }
}

/// The product of two `i64` values fits comfortably inside `i128`.
proof fn lemma_i64_product_fits(a: int, b: int)
    requires
        -two63() <= a < two63(),
        -two63() <= b < two63(),
    ensures
        -(two63() * two63()) <= a * b <= two63() * two63(),
        a * b > i128::MIN,
{
    assert(-(two63() * two63()) <= a * b <= two63() * two63()) by (nonlinear_arith)
        requires
            -two63() <= a < two63(),
            -two63() <= b < two63(),
    ;
}

/// Negating the divisor negates a truncated quotient.
proof fn lemma_tdiv_neg_divisor(a: int, d: int)
    requires
        d > 0,
    ensures
        tdiv(a, -d) == -tdiv(a, d),
{
}

/// The integer square root is unique.
proof fn lemma_sqrt_unique(n: int, r1: int, r2: int)
    requires
        0 <= r1 && r1 * r1 <= n && n < (r1 + 1) * (r1 + 1),
        0 <= r2 && r2 * r2 <= n && n < (r2 + 1) * (r2 + 1),
    ensures
        r1 == r2,
{
    assert(r1 == r2) by (nonlinear_arith)
        requires
            0 <= r1 && r1 * r1 <= n && n < (r1 + 1) * (r1 + 1),
            0 <= r2 && r2 * r2 <= n && n < (r2 + 1) * (r2 + 1),
    ;
}

/// Wrapping fixed-point square root.
pub fn fx_sqrt(a: i64) -> (r: i64)
    ensures
        r as int == fx_wsqrt(a as int),
        r >= 0,
{
    if a <= 0 {
        return 0;
    }
    proof {
        assert((a as int) * (fx_unit() as int) < two63() * fx_unit()) by (nonlinear_arith)
            requires
                0 < a as int,
                (a as int) < two63(),
        ;
    }
    let n: u128 = (a as u128) * (FX_ONE as u128);
    let mut lo: u128 = 0;
    let mut hi: u128 = 0x1_0000_0000_0000u128;
    proof {
        assert((n as int) < (0x1_0000_0000_0000int + 1) * (0x1_0000_0000_0000int + 1))
            by (nonlinear_arith)
            requires
                (n as int) <= two63() * fx_unit(),
        ;
    }
    while lo < hi
        invariant
            0 <= lo <= hi <= 0x1_0000_0000_0000u128,
            (lo as int) * (lo as int) <= n as int,
            (n as int) < ((hi as int) + 1) * ((hi as int) + 1),
        decreases hi - lo,
    {
        let mid: u128 = lo + (hi - lo + 1) / 2;
        proof {
            assert((mid as int) * (mid as int) <= 0x1_0000_0000_0000int * 0x1_0000_0000_0000int)
                by (nonlinear_arith)
                requires
                    0 <= mid as int,
                    (mid as int) <= 0x1_0000_0000_0000int,
            ;
        }
        if mid * mid <= n {
            lo = mid;
        } else {
            hi = mid - 1;
        }
    }
    let r: i64 = lo as i64;
    proof {
        let w = sqrt_val((a as int) * fx_unit());
        assert(0 <= w && w * w <= n as int && (n as int) < (w + 1) * (w + 1)) by {
            assert(0 <= lo as int && (lo as int) * (lo as int) <= n as int
                && (n as int) < ((lo as int) + 1) * ((lo as int) + 1));
        }
        lemma_sqrt_unique(n as int, lo as int, w);
    }
    r
}

} // verus!
