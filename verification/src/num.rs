//! Fixed-point scalars and the small exact-arithmetic toolkit the terrain
//! algorithms are built on.
//!
//! A scalar is an `i64` counting units of `1 / UNIT`; `UNIT` itself therefore
//! stands for the real number one. Sums that could leave the `i64` range are
//! evaluated exactly in `i128` and then saturated, so no operation here can
//! overflow or panic.

use vstd::prelude::*;

verus! {

/// Number of fixed-point steps per whole unit (2^16).
pub const UNIT: i64 = 65536;

/// Clamp an unbounded integer into the `i64` range.
pub open spec fn sat64(x: int) -> int {
    if x < i64::MIN as int {
        i64::MIN as int
    } else if x > i64::MAX as int {
        i64::MAX as int
    } else {
        x
    }
}

/// Exact sum of two scalars, saturated into the representable range.
pub fn sat_add(a: i64, b: i64) -> (r: i64)
    ensures
        r as int == sat64(a + b),
{
    let s: i128 = a as i128 + b as i128;
    if s < i64::MIN as i128 {
        i64::MIN
    } else if s > i64::MAX as i128 {
        i64::MAX
    } else {
        s as i64
    }
}

/// Clamp an exact `i128` value into the scalar range.
pub fn sat_of_i128(s: i128) -> (r: i64)
    ensures
        r as int == sat64(s as int),
{
    if s < i64::MIN as i128 {
        i64::MIN
    } else if s > i64::MAX as i128 {
        i64::MAX
    } else {
        s as i64
    }
}

/// Floor division (the quotient rounds toward negative infinity), matching
/// the mathematical `/` used in every contract of this crate.
///
/// Implemented over unsigned magnitudes so that no signed machine division
/// is needed.
pub fn div_floor(a: i128, b: i128) -> (r: i128)
    requires
        b > 0,
        -0x4000_0000_0000_0000_0000_0000_0000_0000 < a,
    ensures
        r == a as int / b as int,
{
    if a >= 0 {
        let q: u128 = (a as u128) / (b as u128);
        proof {
            assert(q == a as int / b as int) by {
                vstd::arithmetic::div_mod::lemma_div_is_ordered(0, a as int, b as int);
                vstd::arithmetic::div_mod::lemma_div_is_ordered_by_denominator(
                    a as int, 1, b as int);
            };
        }
        q as i128
    } else {
        let m: u128 = (-a) as u128;
        let q: u128 = m / (b as u128);
        let rem: u128 = m % (b as u128);
        proof {
            assert(m == q * b + rem && rem < b) by {
                vstd::arithmetic::div_mod::lemma_fundamental_div_mod(m as int, b as int);
            };
            assert(q <= m) by {
                vstd::arithmetic::div_mod::lemma_div_is_ordered_by_denominator(
                    m as int, 1, b as int);
            };
            if rem == 0 {
                assert(a as int == (-(q as int)) * b as int + 0) by {
                    vstd::arithmetic::mul::lemma_mul_unary_negation(q as int, b as int);
                };
                assert(a as int / b as int == -(q as int)) by {
                    vstd::arithmetic::div_mod::lemma_fundamental_div_mod_converse(
                        a as int, b as int, -(q as int), 0);
                };
            } else {
                assert(a as int == (-(q as int) - 1) * b as int + (b - rem)) by {
                    assert((-(q as int) - 1) * b as int == -(q as int) * b as int - b) by {
                        vstd::arithmetic::mul::lemma_mul_is_distributive_sub_other_way(
                            b as int, -(q as int), 1);
                    };
                    vstd::arithmetic::mul::lemma_mul_unary_negation(q as int, b as int);
                };
                assert(a as int / b as int == -(q as int) - 1) by {
                    vstd::arithmetic::div_mod::lemma_fundamental_div_mod_converse(
                        a as int, b as int, -(q as int) - 1, b - rem);
                };
            }
        }
        if rem == 0 {
            -(q as i128)
        } else {
            -(q as i128) - 1
        }
    }
}

/// Floor average of two scalars: exact `(a + b) / 2`.
pub fn avg2(a: i64, b: i64) -> (r: i64)
    ensures
        r == (a + b) / 2,
{
    let s: i128 = a as i128 + b as i128;
    let q: i128 = div_floor(s, 2);
    proof {
        vstd::arithmetic::div_mod::lemma_div_is_ordered(2 * i64::MIN as int, s as int, 2);
        vstd::arithmetic::div_mod::lemma_div_is_ordered(s as int, 2 * i64::MAX as int, 2);
        assert(2 * i64::MIN as int / 2 == i64::MIN as int);
        assert(2 * i64::MAX as int / 2 == i64::MAX as int);
    }
    q as i64
}

/// Floor average of three scalars: exact `(a + b + c) / 3`.
pub fn avg3(a: i64, b: i64, c: i64) -> (r: i64)
    ensures
        r == (a + b + c) / 3,
{
    let s: i128 = a as i128 + b as i128 + c as i128;
    let q: i128 = div_floor(s, 3);
    proof {
        vstd::arithmetic::div_mod::lemma_div_is_ordered(3 * i64::MIN as int, s as int, 3);
        vstd::arithmetic::div_mod::lemma_div_is_ordered(s as int, 3 * i64::MAX as int, 3);
        assert(3 * i64::MIN as int / 3 == i64::MIN as int);
        assert(3 * i64::MAX as int / 3 == i64::MAX as int);
    }
    q as i64
}

/// Floor average of four scalars: exact `(a + b + c + d) / 4`.
pub fn avg4(a: i64, b: i64, c: i64, d: i64) -> (r: i64)
    ensures
        r == (a + b + c + d) / 4,
{
    let s: i128 = a as i128 + b as i128 + c as i128 + d as i128;
    let q: i128 = div_floor(s, 4);
    proof {
        vstd::arithmetic::div_mod::lemma_div_is_ordered(4 * i64::MIN as int, s as int, 4);
        vstd::arithmetic::div_mod::lemma_div_is_ordered(s as int, 4 * i64::MAX as int, 4);
        assert(4 * i64::MIN as int / 4 == i64::MIN as int);
        assert(4 * i64::MAX as int / 4 == i64::MAX as int);
    }
    q as i64
}

/// The integer square root: the greatest `r` with `r * r <= n`.
pub open spec fn isqrt_spec(n: int) -> int
    decreases n,
{
    if n < 1 {
        0
    } else {
        let p = isqrt_spec(n - 1);
        if (p + 1) * (p + 1) <= n {
            p + 1
        } else {
            p
        }
    }
}

/// The defining property of `isqrt_spec`.
pub proof fn lemma_isqrt_spec(n: int)
    requires
        n >= 0,
    ensures
        isqrt_spec(n) >= 0,
        isqrt_spec(n) * isqrt_spec(n) <= n,
        n < (isqrt_spec(n) + 1) * (isqrt_spec(n) + 1),
    decreases n,
{
    if n == 0 {
    } else {
        lemma_isqrt_spec(n - 1);
        let p = isqrt_spec(n - 1);
        if (p + 1) * (p + 1) <= n {
            assert(n < (p + 2) * (p + 2)) by (nonlinear_arith)
                requires n - 1 < (p + 1) * (p + 1) && p >= 0;
        }
    }
}

/// Any `r` with `r * r <= n < (r + 1) * (r + 1)` is `isqrt_spec(n)`.
pub proof fn lemma_isqrt_unique(n: int, r: int)
    requires
        n >= 0,
        r >= 0,
        r * r <= n,
        n < (r + 1) * (r + 1),
    ensures
        r == isqrt_spec(n),
{
    lemma_isqrt_spec(n);
    let s = isqrt_spec(n);
    assert(r == s) by (nonlinear_arith)
        requires
            r >= 0 && s >= 0 && r * r <= n && n < (r + 1) * (r + 1)
            && s * s <= n && n < (s + 1) * (s + 1);
}

/// Integer square root by binary search.
pub fn isqrt(n: u128) -> (r: u64)
    requires
        n < 0x4000_0000_0000_0000_0000_0000_0000_0000,
    ensures
        r == isqrt_spec(n as int),
{
    let mut lo: u128 = 0;
    let mut hi: u128 = 0x8000_0000_0000_0000;
    // invariant: lo * lo <= n < hi * hi
    proof {
        assert((0x8000_0000_0000_0000 as int) * (0x8000_0000_0000_0000 as int)
            == 0x4000_0000_0000_0000_0000_0000_0000_0000);
    }
    while lo + 1 < hi
        invariant
            lo < hi <= 0x8000_0000_0000_0000,
            lo * lo <= n,
            n < hi * hi,
        decreases hi - lo,
    {
        let mid: u128 = lo + (hi - lo) / 2;
        proof {
            assert(mid * mid < 0x4000_0000_0000_0000_0000_0000_0000_0000) by (nonlinear_arith)
                requires mid < 0x8000_0000_0000_0000;
        }
        if mid * mid <= n {
            lo = mid;
        } else {
            hi = mid;
        }
    }
    proof {
        assert(n < (lo + 1) * (lo + 1));
        lemma_isqrt_unique(n as int, lo as int);
    }
    lo as u64
}

} // verus!
