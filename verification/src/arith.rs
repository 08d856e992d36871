//! Fixed-point arithmetic primitives: truncating division, integer square
//! root, and the bounds under which the pipeline is free of overflow.

use vstd::prelude::*;
use vstd::arithmetic::div_mod::{lemma_div_is_ordered, lemma_div_multiples_vanish};

verus! {

/// One unit of the fixed-point representation: a real value `v` is stored
/// as the integer `v * SCALE` (nano units).
pub const SCALE: u64 = 1_000_000_000;

/// Largest magnitude accepted for a matrix entry, in nano units.
pub const VALUE_LIMIT: i64 = 1_000_000_000_000_000;

/// Largest weight accepted, in nano units.
pub const WEIGHT_LIMIT: u64 = 1_000_000_000_000_000;

/// Largest accepted number of matrix entries, and of criteria.
pub const DIM_LIMIT: usize = 1_000_000;

/// The square of an integer.
pub open spec fn sq(x: int) -> int {
    x * x
}

/// Division truncated toward zero, as the machine division of signed
/// integers behaves. For non-negative `a` it coincides with floor division.
pub open spec fn tdiv(a: int, b: int) -> int {
    if a >= 0 {
        a / b
    } else {
        0 - ((0 - a) / b)
    }
}

/// `r` is the integer square root of `n`: the largest integer whose square
/// does not exceed `n`.
pub open spec fn is_isqrt(n: int, r: int) -> bool {
    0 <= r && sq(r) <= n && n < sq(r + 1)
}

/// The integer square root of `n` (meaningful for `n >= 0`).
pub open spec fn isqrt(n: int) -> int {
    choose|r: int| #[trigger] is_isqrt(n, r)
}

pub proof fn lemma_isqrt_exists(n: nat)
    ensures
        exists|r: int| is_isqrt(n as int, r),
    decreases n,
{
    if n == 0 {
        assert(is_isqrt(0, 0));
    } else {
        lemma_isqrt_exists((n - 1) as nat);
        let r = choose|r: int| #[trigger] is_isqrt(n - 1, r);
        if sq(r + 1) <= n {
            assert(n < sq(r + 2)) by (nonlinear_arith)
                requires r >= 0 && n - 1 < sq(r + 1) && sq(r + 1) <= n
            ;
            assert(is_isqrt(n as int, r + 1));
        } else {
            assert(is_isqrt(n as int, r));
        }
    }
}

pub proof fn lemma_isqrt_unique(n: int, r1: int, r2: int)
    requires
        is_isqrt(n, r1),
        is_isqrt(n, r2),
    ensures
        r1 == r2,
{
    assert(r1 == r2) by (nonlinear_arith)
        requires
            0 <= r1 && r1 * r1 <= n && n < (r1 + 1) * (r1 + 1),
            0 <= r2 && r2 * r2 <= n && n < (r2 + 1) * (r2 + 1),
    ;
}

/// Any witness of `is_isqrt` is the `isqrt`.
pub proof fn lemma_isqrt_is(n: int, r: int)
    requires
        is_isqrt(n, r),
    ensures
        isqrt(n) == r,
{
    let r0 = choose|r0: int| #[trigger] is_isqrt(n, r0);
    lemma_isqrt_unique(n, r0, r);
}

/// For non-negative `n`, `isqrt(n)` satisfies its defining property.
pub proof fn lemma_isqrt_props(n: int)
    requires
        n >= 0,
    ensures
        is_isqrt(n, isqrt(n)),
        isqrt(n) >= 0,
        sq(isqrt(n)) <= n,
        n < sq(isqrt(n) + 1),
{
    lemma_isqrt_exists(n as nat);
}

pub proof fn lemma_isqrt_monotone(a: int, b: int)
    requires
        0 <= a <= b,
    ensures
        isqrt(a) <= isqrt(b),
{
    lemma_isqrt_props(a);
    lemma_isqrt_props(b);
    let ra = isqrt(a);
    let rb = isqrt(b);
    if ra > rb {
        assert(sq(ra) >= sq(rb + 1)) by (nonlinear_arith)
            requires 0 <= rb && rb + 1 <= ra
        ;
    }
}

/// The integer square root of a perfect square is its (non-negative) root.
pub proof fn lemma_isqrt_of_square(a: int)
    requires
        a >= 0,
    ensures
        isqrt(sq(a)) == a,
{
    assert(sq(a) < sq(a + 1)) by (nonlinear_arith)
        requires a >= 0
    ;
    assert(is_isqrt(sq(a), a));
    lemma_isqrt_is(sq(a), a);
}

/// `isqrt(n) == 0` exactly when `n == 0` (for non-negative `n`).
pub proof fn lemma_isqrt_zero(n: int)
    requires
        n >= 0,
    ensures
        (isqrt(n) == 0) <==> (n == 0),
{
    lemma_isqrt_props(n);
    assert(sq(0) == 0 && sq(1) == 1) by (nonlinear_arith);
    if n == 0 {
        assert(is_isqrt(0, 0));
        lemma_isqrt_is(0, 0);
    }
}

/// If `sq(x) <= n` then `|x|` is at most `isqrt(n)`.
pub proof fn lemma_abs_le_isqrt(x: int, n: int)
    requires
        sq(x) <= n,
    ensures
        -isqrt(n) <= x <= isqrt(n),
{
    let a = if x >= 0 { x } else { -x };
    assert(sq(a) == sq(x) && sq(a) >= 0) by (nonlinear_arith)
        requires a == x || a == -x
    ;
    lemma_isqrt_of_square(a);
    lemma_isqrt_monotone(sq(a), n);
}

/// Binary search for the integer square root of a `u128`.
#[verifier::loop_isolation(false)]
pub fn isqrt_u128(n: u128) -> (r: u64)
    ensures
        is_isqrt(n as int, r as int),
        r as int == isqrt(n as int),
{
    let mut lo: u128 = 0;
    let mut hi: u128 = 0xFFFF_FFFF_FFFF_FFFF;
    assert(n < sq(hi as int + 1)) by (nonlinear_arith)
        requires hi == 0xFFFF_FFFF_FFFF_FFFFu128 && n <= u128::MAX
    ;
    while lo < hi
        invariant
            lo <= hi <= 0xFFFF_FFFF_FFFF_FFFF,
            sq(lo as int) <= n as int,
            (n as int) < sq(hi as int + 1),
        decreases hi - lo,
    {
        let mid: u128 = lo + (hi - lo + 1) / 2;
        assert(lo < mid <= hi);
        assert(mid * mid <= u128::MAX) by (nonlinear_arith)
            requires mid <= 0xFFFF_FFFF_FFFF_FFFFu128
        ;
        if mid * mid <= n {
            lo = mid;
        } else {
            hi = mid - 1;
        }
    }
    proof {
        lemma_isqrt_is(n as int, lo as int);
    }
    lo as u64
}

/// Multiplies a matrix entry by a weight and divides by a column norm,
/// truncating toward zero: the fixed-point form of `x * w / norm`.
/// The result's magnitude never exceeds the weight, since `|x| <= norm`.
#[verifier::loop_isolation(false)]
pub fn scale_value(x: i64, w: u64, norm: u64) -> (t: i64)
    requires
        norm > 0,
        -(norm as int) <= x as int <= norm as int,
        -VALUE_LIMIT <= x <= VALUE_LIMIT,
        w <= WEIGHT_LIMIT,
    ensures
        t as int == tdiv(x as int * w as int, norm as int),
        -(w as int) <= t as int <= w as int,
{
    let mag: u64 = if x >= 0 {
        x as u64
    } else {
        (-x) as u64
    };
    assert(mag as int * w as int <= VALUE_LIMIT as int * WEIGHT_LIMIT as int) by (nonlinear_arith)
        requires mag as int <= VALUE_LIMIT as int && w as int <= WEIGHT_LIMIT as int && mag as int >= 0
    ;
    let prod: u128 = (mag as u128) * (w as u128);
    let q: u128 = prod / (norm as u128);
    proof {
        assert(prod == mag as int * w as int);
        assert(mag as int * w as int <= norm as int * w as int) by (nonlinear_arith)
            requires mag as int <= norm as int && w as int >= 0
        ;
        lemma_div_is_ordered(mag as int * w as int, norm as int * w as int, norm as int);
        lemma_div_multiples_vanish(w as int, norm as int);
        assert(q as int == (mag as int * w as int) / norm as int);
        assert(q <= w);
        if x >= 0 {
            assert(x as int * w as int == mag as int * w as int);
        } else {
            assert(0 - (x as int * w as int) == mag as int * w as int) by (nonlinear_arith)
                requires mag as int == 0 - x as int
            ;
        }
    }
    if x >= 0 {
        q as i64
    } else {
        -(q as i64)
    }
}

/// The relative closeness `dn * SCALE / (dp + dn)` of an alternative whose
/// distances to the positive and the negative ideal are `dp` and `dn`.
/// When both distances are zero the alternative is equally near both
/// ideals, and the closeness is defined to be one half.
pub open spec fn closeness(dp: int, dn: int) -> int {
    if dp + dn == 0 {
        (SCALE as int) / 2
    } else {
        (dn * SCALE) / (dp + dn)
    }
}

/// Computes the relative closeness; the result always lies in `[0, SCALE]`.
#[verifier::loop_isolation(false)]
pub fn closeness_exec(dp: u64, dn: u64) -> (c: u64)
    requires
        dp as int <= 0x7FFF_FFFF_FFFF_FFFF,
        dn as int <= 0x7FFF_FFFF_FFFF_FFFF,
    ensures
        c as int == closeness(dp as int, dn as int),
        c <= SCALE,
{
    if dp == 0 && dn == 0 {
        SCALE / 2
    } else {
        let den: u128 = dp as u128 + dn as u128;
        let num: u128 = (dn as u128) * (SCALE as u128);
        let q: u128 = num / den;
        proof {
            assert(num == dn as int * SCALE as int);
            assert(dn as int * SCALE as int <= den as int * SCALE as int) by (nonlinear_arith)
                requires dn as int <= den as int && SCALE as int >= 0
            ;
            lemma_div_is_ordered(dn as int * SCALE as int, den as int * SCALE as int, den as int);
            lemma_div_multiples_vanish(SCALE as int, den as int);
            assert(q <= SCALE);
        }
        q as u64
    }
}

} // verus!
