//! Signed fixed-point arithmetic helpers.
//!
//! Scalars in this crate are `i64` values carrying `FP_ONE` units per 1.0,
//! so the unit interval [0, 1] is represented by [0, `FP_ONE`]. Angles are
//! measured in turns at the same scale: `FP_ONE` units make one full turn.

use vstd::prelude::*;

verus! {

/// Number of fixed-point units in 1.0 (also: in one full turn).
pub const FP_ONE: i64 = 65536;

/// Number of fixed-point units in 0.5 (also: in half a turn).
pub const FP_HALF: i64 = 32768;

/// Number of fixed-point units in 0.25 (also: in a quarter turn).
pub const FP_QUARTER: i64 = 16384;

/// Clamp of `v` into `[lo, hi]`.
pub open spec fn clamp_spec(v: int, lo: int, hi: int) -> int {
    if v < lo {
        lo
    } else if v > hi {
        hi
    } else {
        v
    }
}

/// Absolute value.
pub open spec fn abs_spec(v: int) -> int {
    if v < 0 {
        -v
    } else {
        v
    }
}

pub fn clamp_i64(v: i64, lo: i64, hi: i64) -> (r: i64)
    requires
        lo <= hi,
    ensures
        r == clamp_spec(v as int, lo as int, hi as int),
{
    if v < lo {
        lo
    } else if v > hi {
        hi
    } else {
        v
    }
}

pub fn abs_i64(v: i64) -> (r: i64)
    requires
        i64::MIN < v,
    ensures
        r == abs_spec(v as int),
{
    if v < 0 {
        -v
    } else {
        v
    }
}

/// Division of a negated non-negative value rounds away from zero.
pub proof fn lemma_div_neg(m: int, s: int)
    requires
        0 <= m,
        0 < s,
    ensures
        (-m) / s == if m % s == 0 {
            -(m / s)
        } else {
            -(m / s) - 1
        },
{
    vstd::arithmetic::div_mod::lemma_fundamental_div_mod(m, s);
    vstd::arithmetic::div_mod::lemma_fundamental_div_mod(-m, s);
    let q = m / s;
    let r = m % s;
    let q2 = (-m) / s;
    let r2 = (-m) % s;
    assert(q2 == if r == 0 {
        -q
    } else {
        -q - 1
    }) by (nonlinear_arith)
        requires
            m == s * q + r,
            0 <= r < s,
            -m == s * q2 + r2,
            0 <= r2 < s,
            0 < s,
    ;
}

/// Floor division by a positive divisor, agreeing with the mathematical
/// quotient also for negative dividends.
pub fn floor_div(n: i64, d: i64) -> (r: i64)
    requires
        0 < d,
        -0x4000000000000000 <= n <= 0x4000000000000000,
    ensures
        r == (n as int) / (d as int),
{
    if n >= 0 {
        n / d
    } else {
        let m = -n;
        let q = m / d;
        proof {
            lemma_div_neg(m as int, d as int);
        }
        if m % d == 0 {
            -q
        } else {
            -q - 1
        }
    }
}

/// The fixed-point product `(a * b) / FP_ONE`, rounded toward minus infinity.
pub open spec fn mul_fp_spec(a: int, b: int) -> int {
    (a * b) / (FP_ONE as int)
}

pub fn mul_fp(a: i64, b: i64) -> (r: i64)
    requires
        -0x80000000 <= a <= 0x80000000,
        -0x80000000 <= b <= 0x80000000,
    ensures
        r == mul_fp_spec(a as int, b as int),
{
    proof {
        assert(-0x4000000000000000 <= a * b <= 0x4000000000000000) by (nonlinear_arith)
            requires
                -0x80000000 <= a <= 0x80000000,
                -0x80000000 <= b <= 0x80000000,
        ;
    }
    floor_div(a * b, FP_ONE)
}

/// Bounds on a fixed-point product from bounds on its factors.
pub proof fn lemma_mul_fp_bound(a: int, b: int, ma: int, mb: int)
    requires
        abs_spec(a) <= ma,
        abs_spec(b) <= mb,
    ensures
        -((ma * mb) / (FP_ONE as int)) - 1 <= mul_fp_spec(a, b) <= (ma * mb) / (FP_ONE as int),
{
    assert(-(ma * mb) <= a * b <= ma * mb) by (nonlinear_arith)
        requires
            -ma <= a <= ma,
            -mb <= b <= mb,
    ;
    vstd::arithmetic::div_mod::lemma_div_is_ordered(a * b, ma * mb, 65536);
    vstd::arithmetic::div_mod::lemma_div_is_ordered(-(ma * mb), a * b, 65536);
    lemma_div_neg(ma * mb, 65536);
}

/// The integer square root, rounded toward zero.
pub open spec fn sqrt_floor(n: nat) -> nat
    decreases n,
{
    if n == 0 {
        0
    } else {
        let p = sqrt_floor((n - 1) as nat);
        if (p + 1) * (p + 1) <= n {
            p + 1
        } else {
            p
        }
    }
}

pub proof fn lemma_sqrt_floor_bounds(n: nat)
    ensures
        sqrt_floor(n) * sqrt_floor(n) <= n,
        n < (sqrt_floor(n) + 1) * (sqrt_floor(n) + 1),
    decreases n,
{
    if n == 0 {
        assert(sqrt_floor(0) == 0);
        assert(n < (sqrt_floor(n) + 1) * (sqrt_floor(n) + 1)) by (nonlinear_arith)
            requires
                n == 0,
                sqrt_floor(n) == 0,
        ;
    } else {
        lemma_sqrt_floor_bounds((n - 1) as nat);
        let p = sqrt_floor((n - 1) as nat);
        assert(p * p <= n - 1);
        assert(n - 1 < (p + 1) * (p + 1));
        if (p + 1) * (p + 1) <= n {
            assert(sqrt_floor(n) == p + 1);
            assert(n < (p + 2) * (p + 2)) by (nonlinear_arith)
                requires
                    n <= (p + 1) * (p + 1),
                    0 <= p,
            ;
            assert((sqrt_floor(n) + 1) * (sqrt_floor(n) + 1) == (p + 2) * (p + 2)) by (nonlinear_arith)
                requires
                    sqrt_floor(n) == p + 1,
            ;
        } else {
            assert(sqrt_floor(n) == p);
        }
    }
}

pub proof fn lemma_sqrt_floor_unique(n: nat, r: nat)
    requires
        r * r <= n,
        n < (r + 1) * (r + 1),
    ensures
        r == sqrt_floor(n),
{
    lemma_sqrt_floor_bounds(n);
    let s = sqrt_floor(n);
    assert(r == s) by (nonlinear_arith)
        requires
            r * r <= n,
            n < (r + 1) * (r + 1),
            s * s <= n,
            n < (s + 1) * (s + 1),
            0 <= r,
            0 <= s,
    ;
}

/// Integer square root by bisection.
pub fn isqrt(n: u64) -> (r: u64)
    ensures
        r == sqrt_floor(n as nat),
        r * r <= n,
        n < (r + 1) * (r + 1),
{
    if n == 0 {
        proof {
            assert(0nat * 0nat <= (n as nat) && (n as nat) < (0nat + 1) * (0nat + 1)) by (nonlinear_arith)
                requires
                    n == 0,
            ;
            lemma_sqrt_floor_unique(n as nat, 0);
        }
        return 0;
    }
    let mut lo: u64 = 0;
    let mut hi: u64 = 4294967296;
    while lo + 1 < hi
        invariant
            lo < hi <= 4294967296,
            lo * lo <= n,
            n < hi * hi,
        decreases hi - lo,
    {
        let mid = lo + (hi - lo) / 2;
        assert(mid < hi);
        assert(mid * mid < 0x10000000000000000) by (nonlinear_arith)
            requires
                mid <= 4294967295,
        ;
        if mid * mid <= n {
            lo = mid;
        } else {
            hi = mid;
        }
    }
    proof {
        lemma_sqrt_floor_unique(n as nat, lo as nat);
    }
    lo
}

} // verus!
