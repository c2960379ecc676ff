//! The integer grid on which all geometry lives, and the exact arithmetic
//! the rest of the library builds on.
//!
//! A position is a whole number of grid units. Differences of positions
//! fit in 64 bits and their products in 128 bits, so nothing here rounds
//! except where a quotient or a square root is asked for, and there the
//! rounding is always downwards.

use vstd::prelude::*;

verus! {

/// Grid units in one millimetre: the grid is one nanometre wide.
pub const UNITS_PER_MM: i32 = 1_000_000;

/// Two positions less than this many units apart are the same position,
/// and a vertex no further than this from a cutting plane lies in it.
pub const EPSILON: i64 = 2;

/// The integer part of `n / d`, rounded towards minus infinity.
pub open spec fn floor_div(n: int, d: int) -> int
    recommends
        d != 0,
{
    if d > 0 {
        n / d
    } else {
        (-n) / (-d)
    }
}

/// `r` is the square root of `n`, rounded down.
pub open spec fn is_floor_sqrt(r: int, n: int) -> bool {
    0 <= r && r * r <= n < (r + 1) * (r + 1)
}

/// The absolute value of an integer.
pub open spec fn magnitude(x: int) -> int {
    if x < 0 {
        -x
    } else {
        x
    }
}

/// The quotient rounded down is the only integer `q` with
/// `q * d <= n < (q + 1) * d` for a positive divisor.
pub proof fn lemma_floor_div_bounds(n: int, d: int)
    requires
        d > 0,
    ensures
        floor_div(n, d) * d <= n < (floor_div(n, d) + 1) * d,
{
    vstd::arithmetic::div_mod::lemma_fundamental_div_mod(n, d);
    vstd::arithmetic::div_mod::lemma_mod_bound(n, d);
    let q = n / d;
    assert(d * q == q * d) by (nonlinear_arith);
    assert((q + 1) * d == q * d + d) by (nonlinear_arith);
}

/// Whoever satisfies the two-sided bound is the quotient rounded down.
pub proof fn lemma_floor_div_unique(n: int, d: int, q: int)
    requires
        d > 0,
        q * d <= n < (q + 1) * d,
    ensures
        q == floor_div(n, d),
{
    lemma_floor_div_bounds(n, d);
    let f = floor_div(n, d);
    if q < f {
        assert((q + 1) * d <= f * d) by (nonlinear_arith)
            requires
                q + 1 <= f,
                d > 0,
        ;
    } else if q > f {
        assert((f + 1) * d <= q * d) by (nonlinear_arith)
            requires
                f + 1 <= q,
                d > 0,
        ;
    }
}

/// Adding a whole multiple of the divisor moves the quotient by that
/// multiple.
pub proof fn lemma_floor_div_shift(n: int, d: int, k: int)
    requires
        d != 0,
    ensures
        floor_div(n + k * d, d) == floor_div(n, d) + k,
{
    if d > 0 {
        lemma_floor_div_bounds(n, d);
        let q = floor_div(n, d);
        assert((q + k) * d == q * d + k * d) by (nonlinear_arith);
        assert((q + k + 1) * d == (q + 1) * d + k * d) by (nonlinear_arith);
        lemma_floor_div_unique(n + k * d, d, q + k);
    } else {
        let e = -d;
        lemma_floor_div_bounds(-n, e);
        let q = floor_div(-n, e);
        assert(-(n + k * d) == -n + k * e) by (nonlinear_arith)
            requires
                e == -d,
        ;
        assert((q + k) * e == q * e + k * e) by (nonlinear_arith);
        assert((q + k + 1) * e == (q + 1) * e + k * e) by (nonlinear_arith);
        lemma_floor_div_unique(-n + k * e, e, q + k);
    }
}

/// Divides rounding towards minus infinity. The one quotient that does
/// not fit, that of the least number by minus one, is left out.
pub fn floor_quotient(n: i128, d: i128) -> (q: i128)
    requires
        d != 0,
        !(n == i128::MIN && d == -1),
    ensures
        q == floor_div(n as int, d as int),
{
    if d > 0 {
        let whole: i128 = n / d;
        let rest: i128 = n % d;
        proof {
            lemma_truncated_division(n as int, d as int, whole as int, rest as int);
            if rest < 0 {
                assert(whole > n) by (nonlinear_arith)
                    requires
                        n == whole * d + rest,
                        rest < 0,
                        d >= 1,
                        whole <= 0,
                ;
                assert((whole - 1) * d == whole * d - d) by (nonlinear_arith);
                lemma_floor_div_unique(n as int, d as int, whole - 1);
            } else {
                assert((whole + 1) * d == whole * d + d) by (nonlinear_arith);
                lemma_floor_div_unique(n as int, d as int, whole as int);
            }
        }
        if rest < 0 {
            whole - 1
        } else {
            whole
        }
    } else if d == i128::MIN {
        if n == i128::MIN {
            1
        } else if n > 0 {
            -1
        } else {
            0
        }
    } else {
        // The quotient by -d, rounded up and negated.
        let e: i128 = -d;
        let whole: i128 = n / e;
        let rest: i128 = n % e;
        proof {
            lemma_truncated_division(n as int, e as int, whole as int, rest as int);
            let up = if rest > 0 {
                whole + 1
            } else {
                whole as int
            };
            assert((-up) * e == -(up * e)) by (nonlinear_arith);
            assert((-up + 1) * e == -(up * e) + e) by (nonlinear_arith);
            assert((whole + 1) * e == whole * e + e) by (nonlinear_arith);
            lemma_floor_div_unique(-n, e as int, -up);
            if e == 1 {
                assert(whole * 1 == whole) by (nonlinear_arith);
            } else {
                assert(-0x4000_0000_0000_0000_0000_0000_0000_0000 <= whole
                    <= 0x4000_0000_0000_0000_0000_0000_0000_0000) by (nonlinear_arith)
                    requires
                        n == whole * e + rest,
                        -e < rest < e,
                        e >= 2,
                        -0x8000_0000_0000_0000_0000_0000_0000_0000 <= n
                            <= 0x7fff_ffff_ffff_ffff_ffff_ffff_ffff_ffff,
                ;
            }
        }
        if rest > 0 {
            -(whole + 1)
        } else {
            -whole
        }
    }
}

/// What the machine's division gives for a positive divisor: a quotient
/// rounded towards zero, and a rest with the sign of the dividend.
proof fn lemma_truncated_division(n: int, d: int, whole: int, rest: int)
    requires
        d > 0,
        n >= 0 ==> whole == n / d && rest == n % d,
        n < 0 ==> whole == -((-n) / d) && rest == -((-n) % d),
    ensures
        n == whole * d + rest,
        -d < rest < d,
        n >= 0 ==> rest >= 0,
        n < 0 ==> rest <= 0,
{
    if n >= 0 {
        vstd::arithmetic::div_mod::lemma_fundamental_div_mod(n, d);
        vstd::arithmetic::div_mod::lemma_mod_bound(n, d);
        assert(d * (n / d) == (n / d) * d) by (nonlinear_arith);
    } else {
        vstd::arithmetic::div_mod::lemma_fundamental_div_mod(-n, d);
        vstd::arithmetic::div_mod::lemma_mod_bound(-n, d);
        let k = (-n) / d;
        assert(d * k == k * d) by (nonlinear_arith);
        assert((-k) * d == -(k * d)) by (nonlinear_arith);
    }
}

/// The square root of `n`, rounded down.
pub fn floor_sqrt(n: u128) -> (r: u64)
    ensures
        is_floor_sqrt(r as int, n as int),
{
    let mut lo: u128 = 0;
    let mut hi: u128 = 0x1_0000_0000_0000_0000;
    assert(0x1_0000_0000_0000_0000int * 0x1_0000_0000_0000_0000int
        == 0x1_0000_0000_0000_0000_0000_0000_0000_0000int) by (nonlinear_arith);
    while hi - lo > 1
        invariant
            lo < hi <= 0x1_0000_0000_0000_0000,
            lo * lo <= n < hi * hi,
        decreases hi - lo,
    {
        let mid: u128 = lo + (hi - lo) / 2;
        assert(mid * mid <= 0xffff_ffff_ffff_ffffint * 0xffff_ffff_ffff_ffffint)
            by (nonlinear_arith)
            requires
                0 <= mid <= 0xffff_ffff_ffff_ffff,
        ;
        let square: u128 = mid * mid;
        if square <= n {
            lo = mid;
        } else {
            hi = mid;
        }
    }
    lo as u64
}

} // verus!
