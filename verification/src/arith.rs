//! Exact integer helpers: floor and nearest division, integer square root.

use vstd::prelude::*;

verus! {

/// Largest magnitude accepted as a dividend or divisor by the helpers below.
pub const DIV_BOUND: i128 = 0x1000_0000_0000_0000_0000_0000_0000_0000;

/// The quotient rounded to the nearest integer, halves rounded up:
/// `floor(a / b + 1/2)` for a positive `b`.
pub open spec fn round_div(a: int, b: int) -> int {
    (2 * a + b) / (2 * b)
}

/// Nearest-integer rounding commutes with adding a whole number.
pub proof fn lemma_round_div_shift(a: int, b: int, k: int)
    requires
        b > 0,
    ensures
        round_div(a + k * b, b) == round_div(a, b) + k,
{
    let q = round_div(a, b);
    let r = (2 * a + b) % (2 * b);
    vstd::arithmetic::div_mod::lemma_fundamental_div_mod(2 * a + b, 2 * b);
    assert(2 * a + b == (2 * b) * q + r);
    assert(0 <= r < 2 * b) by {
        vstd::arithmetic::div_mod::lemma_mod_bound(2 * a + b, 2 * b);
    }
    assert(2 * (a + k * b) + b == (q + k) * (2 * b) + r) by (nonlinear_arith)
        requires
            2 * a + b == (2 * b) * q + r,
    ;
    vstd::arithmetic::div_mod::lemma_fundamental_div_mod_converse(
        2 * (a + k * b) + b,
        2 * b,
        q + k,
        r,
    );
}

/// A rounded quotient of a value between `0` and `b * m` lies between `0` and `m`.
pub proof fn lemma_round_div_bounds(a: int, b: int, m: int)
    requires
        b > 0,
        m >= 0,
        0 <= a <= b * m,
    ensures
        0 <= round_div(a, b) <= m,
{
    let q = round_div(a, b);
    let r = (2 * a + b) % (2 * b);
    vstd::arithmetic::div_mod::lemma_fundamental_div_mod(2 * a + b, 2 * b);
    vstd::arithmetic::div_mod::lemma_mod_bound(2 * a + b, 2 * b);
    assert(0 <= q <= m) by (nonlinear_arith)
        requires
            2 * a + b == (2 * b) * q + r,
            0 <= r < 2 * b,
            b > 0,
            m >= 0,
            0 <= a <= b * m,
    ;
}

/// A rounded quotient of a value between `b * m` and `0` lies between `m` and `0`.
pub proof fn lemma_round_div_bounds_neg(a: int, b: int, m: int)
    requires
        b > 0,
        m <= 0,
        b * m <= a <= 0,
    ensures
        m <= round_div(a, b) <= 0,
{
    let q = round_div(a, b);
    let r = (2 * a + b) % (2 * b);
    vstd::arithmetic::div_mod::lemma_fundamental_div_mod(2 * a + b, 2 * b);
    vstd::arithmetic::div_mod::lemma_mod_bound(2 * a + b, 2 * b);
    assert(m <= q <= 0) by (nonlinear_arith)
        requires
            2 * a + b == (2 * b) * q + r,
            0 <= r < 2 * b,
            b > 0,
            m <= 0,
            b * m <= a <= 0,
    ;
}

/// Floor division by a positive divisor.
pub fn floor_div(a: i128, b: i128) -> (q: i128)
    requires
        b > 0,
    ensures
        q == a as int / b as int,
{
    proof {
        vstd::arithmetic::div_mod::lemma_fundamental_div_mod(a as int, b as int);
        vstd::arithmetic::div_mod::lemma_mod_bound(a as int, b as int);
        let q = a as int / b as int;
        let r = a as int % b as int;
        assert(i128::MIN <= q <= i128::MAX) by (nonlinear_arith)
            requires
                a == b * q + r,
                0 <= r < b,
                b >= 1,
                i128::MIN <= a <= i128::MAX,
        ;
    }
    match a.checked_div_euclid(b) {
        Some(q) => q,
        None => 0,
    }
}

/// Division by a positive divisor, rounded to the nearest integer.
pub fn round_div_exec(a: i128, b: i128) -> (q: i128)
    requires
        0 < b <= DIV_BOUND,
        -DIV_BOUND <= a <= DIV_BOUND,
    ensures
        q == round_div(a as int, b as int),
{
    floor_div(2 * a + b, 2 * b)
}

/// The quotient rounded to the nearest integer, halves rounded away from
/// zero, for a positive `b`. Unlike `round_div` it commutes with negation.
pub open spec fn round_sym(a: int, b: int) -> int {
    if a >= 0 {
        round_div(a, b)
    } else {
        -round_div(-a, b)
    }
}

/// Rounding away from zero commutes with negation.
pub proof fn lemma_round_sym_negate(a: int, b: int)
    requires
        b > 0,
    ensures
        round_sym(-a, b) == -round_sym(a, b),
{
    if a == 0 {
        assert(0 <= 0 <= b * 0) by (nonlinear_arith);
        lemma_round_div_bounds(0, b, 0);
    }
}

/// A quotient rounded away from zero of a value between `-b * m` and
/// `b * m` lies between `-m` and `m`.
pub proof fn lemma_round_sym_bounds(a: int, b: int, m: int)
    requires
        b > 0,
        m >= 0,
        -(b * m) <= a <= b * m,
    ensures
        -m <= round_sym(a, b) <= m,
        a >= 0 ==> round_sym(a, b) >= 0,
        a <= 0 ==> round_sym(a, b) <= 0,
{
    if a >= 0 {
        lemma_round_div_bounds(a, b, m);
        if a == 0 {
            assert(0 <= 0 <= b * 0) by (nonlinear_arith);
            lemma_round_div_bounds(0, b, 0);
        }
    } else {
        lemma_round_div_bounds(-a, b, m);
    }
}

/// Division by a positive divisor, rounded to the nearest integer, halves
/// away from zero.
pub fn round_sym_exec(a: i128, b: i128) -> (q: i128)
    requires
        0 < b <= DIV_BOUND,
        -DIV_BOUND <= a <= DIV_BOUND,
    ensures
        q == round_sym(a as int, b as int),
{
    if a >= 0 {
        round_div_exec(a, b)
    } else {
        proof {
            assert(-(b * (-a)) <= a <= b * (-a)) by (nonlinear_arith)
                requires
                    b >= 1,
                    a < 0,
            ;
            lemma_round_sym_bounds(a as int, b as int, -a as int);
        }
        let q: i128 = round_div_exec(-a, b);
        -q
    }
}

/// The integer square root: the largest `r` with `r * r <= n`.
pub open spec fn is_sqrt_floor(n: int, r: int) -> bool {
    0 <= r && r * r <= n < (r + 1) * (r + 1)
}

/// The integer square root is unique.
pub proof fn lemma_sqrt_floor_unique(n: int, r1: int, r2: int)
    requires
        is_sqrt_floor(n, r1),
        is_sqrt_floor(n, r2),
    ensures
        r1 == r2,
{
    assert(r1 == r2) by (nonlinear_arith)
        requires
            0 <= r1,
            r1 * r1 <= n < (r1 + 1) * (r1 + 1),
            0 <= r2,
            r2 * r2 <= n < (r2 + 1) * (r2 + 1),
    ;
}

/// Every natural number has an integer square root.
pub proof fn lemma_sqrt_floor_exists(n: int)
    requires
        n >= 0,
    ensures
        exists|r: int| is_sqrt_floor(n, r),
    decreases n,
{
    if n == 0 {
        assert(is_sqrt_floor(0, 0));
    } else {
        let k = n - 1;
        lemma_sqrt_floor_exists(k);
        let r = choose|r: int| is_sqrt_floor(k, r);
        if (r + 1) * (r + 1) <= n {
            assert(n < (r + 2) * (r + 2)) by (nonlinear_arith)
                requires
                    n - 1 < (r + 1) * (r + 1),
                    0 <= r,
            ;
            assert(is_sqrt_floor(n, r + 1));
        } else {
            assert(is_sqrt_floor(n, r));
        }
    }
}

/// Computes the integer square root by bisection.
pub fn isqrt(n: u64) -> (r: u64)
    ensures
        is_sqrt_floor(n as int, r as int),
        r <= 0xffff_ffff,
{
    let mut lo: u64 = 0;
    let mut hi: u64 = 0x1_0000_0000;
    assert(hi * hi > n) by (nonlinear_arith)
        requires
            hi == 0x1_0000_0000,
            n <= u64::MAX,
    ;
    while hi - lo > 1
        invariant
            lo < hi <= 0x1_0000_0000,
            lo * lo <= n < hi * hi,
        decreases hi - lo,
    {
        let mid: u64 = lo + (hi - lo) / 2;
        assert(mid * mid <= 0x1_0000_0000_0000_0000) by (nonlinear_arith)
            requires
                mid <= 0x1_0000_0000,
        ;
        let sq: u128 = mid as u128 * mid as u128;
        let small: bool = sq <= n as u128;
        if small {
            lo = mid;
        } else {
            hi = mid;
        }
    }
    lo
}

} // verus!
