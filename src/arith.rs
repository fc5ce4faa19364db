//! Integer helpers shared by the geometry: wide floor division, integer
//! square root, and bounds on products and quotients.

use vstd::prelude::*;

verus! {

/// Floor division of wide integers by a positive divisor.
pub fn floor_div_wide(a: i128, b: i128) -> (q: i128)
    requires
        b > 0,
        a > i128::MIN,
    ensures
        q == a as int / b as int,
{
    if a >= 0 {
        ((a as u128) / (b as u128)) as i128
    } else {
        let n: u128 = (-(a + 1)) as u128;
        let t: u128 = n / (b as u128);
        proof {
            let ai = a as int;
            let bi = b as int;
            let ni = n as int;
            let ti = t as int;
            vstd::arithmetic::div_mod::lemma_fundamental_div_mod(ni, bi);
            vstd::arithmetic::mul::lemma_mul_is_commutative(ti, bi);
            let q = -ti - 1;
            let r = ai - q * bi;
            assert(r == bi - 1 - (ni - ti * bi)) by (nonlinear_arith)
                requires
                    r == ai - q * bi,
                    q == -ti - 1,
                    ni == -ai - 1,
            ;
            vstd::arithmetic::div_mod::lemma_mod_bound(ni, bi);
            vstd::arithmetic::div_mod::lemma_fundamental_div_mod_converse(ai, bi, q, r);
            vstd::arithmetic::div_mod::lemma_div_is_ordered_by_denominator(ni, 1, bi);
        }
        -(t as i128) - 1
    }
}

/// `r` is the integer square root of `n`.
pub open spec fn is_isqrt(n: int, r: int) -> bool {
    0 <= r && r * r <= n < (r + 1) * (r + 1)
}

/// The integer square root: the largest `r` with `r * r <= n`.
pub open spec fn isqrt_spec(n: int) -> int {
    choose|r: int| is_isqrt(n, r)
}

/// Only one integer is the square root of `n`.
pub proof fn lemma_isqrt_unique(n: int, r1: int, r2: int)
    requires
        is_isqrt(n, r1),
        is_isqrt(n, r2),
    ensures
        r1 == r2,
{
    if r1 < r2 {
        assert((r1 + 1) * (r1 + 1) <= r2 * r2) by (nonlinear_arith)
            requires
                0 <= r1 < r2,
        ;
    } else if r2 < r1 {
        assert((r2 + 1) * (r2 + 1) <= r1 * r1) by (nonlinear_arith)
            requires
                0 <= r2 < r1,
        ;
    }
}

/// Once `r` is known to be a square root of `n`, it is the square root.
pub proof fn lemma_isqrt_is(n: int, r: int)
    requires
        is_isqrt(n, r),
    ensures
        isqrt_spec(n) == r,
{
    let c = isqrt_spec(n);
    assert(is_isqrt(n, c));
    lemma_isqrt_unique(n, c, r);
}

/// Largest square root input accepted by `isqrt`.
pub const ISQRT_LIMIT: u128 = 0x4000_0000_0000_0000_0000_0000_0000_0000;

/// Integer square root by bisection.
pub fn isqrt(n: u128) -> (r: u128)
    requires
        n < ISQRT_LIMIT,
    ensures
        is_isqrt(n as int, r as int),
        r == isqrt_spec(n as int),
        r < 0x8000_0000_0000_0000,
{
    let mut lo: u128 = 0;
    let mut hi: u128 = 0x8000_0000_0000_0000;
    assert(hi * hi == ISQRT_LIMIT);
    while hi - lo > 1
        invariant
            lo < hi <= 0x8000_0000_0000_0000,
            lo * lo <= n,
            n < hi * hi,
        decreases hi - lo,
    {
        let mid = lo + (hi - lo) / 2;
        assert(mid * mid <= 0x8000_0000_0000_0000u128 * 0x8000_0000_0000_0000u128)
            by (nonlinear_arith)
            requires
                mid <= 0x8000_0000_0000_0000u128,
        ;
        if mid * mid <= n {
            lo = mid;
        } else {
            hi = mid;
        }
    }
    assert(hi == lo + 1);
    proof {
        lemma_isqrt_is(n as int, lo as int);
    }
    lo
}

/// A product of bounded factors is bounded by the product of the bounds.
pub proof fn lemma_mul_abs_bound(p: int, q: int, bp: int, bq: int)
    requires
        -bp <= p <= bp,
        -bq <= q <= bq,
    ensures
        -(bp * bq) <= p * q <= bp * bq,
{
    assert(-(bp * bq) <= p * q <= bp * bq) by (nonlinear_arith)
        requires
            -bp <= p <= bp,
            -bq <= q <= bq,
    ;
}

/// Floor division keeps a bounded value bounded.
pub proof fn lemma_div_abs_bound(v: int, m: int, d: int)
    requires
        -m <= v <= m,
        d > 0,
    ensures
        -(m / d) - 1 <= v / d <= m / d,
{
    vstd::arithmetic::div_mod::lemma_div_is_ordered(v, m, d);
    vstd::arithmetic::div_mod::lemma_div_is_ordered(-m, v, d);
    vstd::arithmetic::div_mod::lemma_fundamental_div_mod(m, d);
    vstd::arithmetic::div_mod::lemma_fundamental_div_mod(-m, d);
    let q1 = m / d;
    let q2 = (-m) / d;
    let r1 = m % d;
    let r2 = (-m) % d;
    assert(q2 >= -q1 - 1) by (nonlinear_arith)
        requires
            m == d * q1 + r1,
            -m == d * q2 + r2,
            0 <= r1 < d,
            0 <= r2 < d,
            d > 0,
    ;
}

} // verus!
