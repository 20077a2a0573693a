//! Fixed-point scalars.
//!
//! A scalar is an `i128` holding a real value times `SCALE`; every scalar
//! the engine works with keeps its magnitude at most `FXMAX`.  Products
//! truncate toward zero at `SCALE`, exactly as the spec functions here say.

use vstd::prelude::*;

verus! {

/// One unit of the last retained decimal digit: scalars carry nine
/// fractional digits.
pub const SCALE: i128 = 1_000_000_000;

/// Largest magnitude a stored scalar may have (a billion, scaled).
pub const FXMAX: i128 = 1_000_000_000_000_000_000;

/// Largest magnitude a single fixed-point product of in-range scalars can
/// have: `FXMAX * FXMAX / SCALE`.
pub const TERM_CAP: i128 = 1_000_000_000_000_000_000_000_000_000;

/// Magnitude of an integer.
pub open spec fn mag(x: int) -> int {
    if x >= 0 {
        x
    } else {
        -x
    }
}

/// Quotient by `SCALE`, truncated toward zero.
pub open spec fn fq(p: int) -> int {
    if p >= 0 {
        p / (SCALE as int)
    } else {
        -((-p) / (SCALE as int))
    }
}

/// The fixed-point product: the mathematical product, rescaled and
/// truncated toward zero.
pub open spec fn mul_fx(x: int, y: int) -> int {
    fq(x * y)
}

/// Truncation toward zero acts on the magnitude alone.
pub proof fn lemma_fq_mag(p: int)
    ensures
        mag(fq(p)) == mag(p) / (SCALE as int),
        mag(fq(p)) <= mag(p) / (SCALE as int),
{
    if p >= 0 {
    } else {
        assert(mag(p) == -p);
        assert((-p) / (SCALE as int) >= 0) by (nonlinear_arith)
            requires -p >= 0;
    }
}

/// The fixed-point product of values within `bx` and `by` stays within
/// `bx * by / SCALE`.
pub proof fn lemma_mul_fx_bound(x: int, y: int, bx: int, by: int)
    requires
        mag(x) <= bx,
        mag(y) <= by,
    ensures
        mag(mul_fx(x, y)) <= bx * by / (SCALE as int),
{
    assert(mag(x * y) <= bx * by) by (nonlinear_arith)
        requires
            mag(x) <= bx,
            mag(y) <= by;
    lemma_fq_mag(x * y);
    assert(mag(x * y) / (SCALE as int) <= bx * by / (SCALE as int)) by (nonlinear_arith)
        requires
            0 <= mag(x * y) <= bx * by;
}

/// A product of two in-range scalars stays within `TERM_CAP`.
pub proof fn lemma_mul_fx_term_cap(x: int, y: int)
    requires
        mag(x) <= FXMAX as int,
        mag(y) <= FXMAX as int,
    ensures
        mag(mul_fx(x, y)) <= TERM_CAP as int,
{
    lemma_mul_fx_bound(x, y, FXMAX as int, FXMAX as int);
    assert((FXMAX as int) * (FXMAX as int) / (SCALE as int) == TERM_CAP as int) by (nonlinear_arith);
}

/// Multiplying by zero gives zero exactly.
pub proof fn lemma_mul_fx_zero(y: int)
    ensures
        mul_fx(0, y) == 0,
        mul_fx(y, 0) == 0,
{
    assert(0 * y == 0) by (nonlinear_arith);
    assert(y * 0 == 0) by (nonlinear_arith);
    assert((0int) / (SCALE as int) == 0) by (nonlinear_arith);
}

/// Multiplying by one (the scaled unit) is exact.
pub proof fn lemma_mul_fx_one(y: int)
    ensures
        mul_fx(SCALE as int, y) == y,
        mul_fx(y, SCALE as int) == y,
{
    let s = SCALE as int;
    assert(s * y == y * s) by (nonlinear_arith);
    if y >= 0 {
        assert((y * s) / s == y) by (nonlinear_arith)
            requires
                s > 0,
                y >= 0;
    } else {
        assert(-(y * s) == (-y) * s) by (nonlinear_arith);
        assert(((-y) * s) / s == -y) by (nonlinear_arith)
            requires
                s > 0,
                -y >= 0;
    }
}

/// Negating one factor negates the product exactly.
pub proof fn lemma_mul_fx_neg(x: int, y: int)
    ensures
        mul_fx(-x, y) == -mul_fx(x, y),
        mul_fx(x, -y) == -mul_fx(x, y),
{
    assert((-x) * y == -(x * y)) by (nonlinear_arith);
    assert(x * (-y) == -(x * y)) by (nonlinear_arith);
}

/// The fixed-point product does not mind the order of its factors.
pub proof fn lemma_mul_fx_comm(x: int, y: int)
    ensures
        mul_fx(x, y) == mul_fx(y, x),
{
    assert(x * y == y * x) by (nonlinear_arith);
}

/// A value within half a unit (strictly) of a nonnegative multiple of
/// `u` rounds to that multiple.
pub proof fn lemma_round_fx_center(v: int, u: int, t: int)
    requires
        u >= 2,
        u % 2 == 0,
        t >= 0,
        t % u == 0,
        mag(v - t) <= u / 2 - 1,
    ensures
        round_fx(v, u) == t,
{
    vstd::arithmetic::div_mod::lemma_fundamental_div_mod(t, u);
    if t == 0 {
        lemma_round_fx_zero(v, u);
    } else {
        let qt = t / u;
        assert(t == u * qt);
        assert(qt >= 1) by (nonlinear_arith)
            requires
                t == u * qt,
                t > 0,
                u >= 2;
        assert(t >= u) by (nonlinear_arith)
            requires
                t == u * qt,
                qt >= 1,
                u >= 2;
        assert(v >= t - u / 2 + 1 > 0);
        let r = v + u / 2 - t;
        assert(1 <= r <= u - 1);
        assert(u * qt == qt * u) by (nonlinear_arith);
        vstd::arithmetic::div_mod::lemma_fundamental_div_mod_converse(u * qt + r, u, qt, r);
        assert((u * qt + r) / u == qt);
        assert(round_mag(v, u) == qt * u) by {
            assert(v + u / 2 == u * qt + r);
        }
    }
}

/// The exact fixed-point product, computed on magnitudes so that the
/// truncation direction is pinned down.
pub fn fx_mul(x: i128, y: i128) -> (r: i128)
    requires
        -FXMAX <= x <= FXMAX,
        -FXMAX <= y <= FXMAX,
    ensures
        r == mul_fx(x as int, y as int),
        mag(r as int) <= mag(x as int) * mag(y as int) / (SCALE as int),
{
    let neg: bool = (x < 0) != (y < 0);
    let ax: u128 = if x < 0 {
        (-x) as u128
    } else {
        x as u128
    };
    let ay: u128 = if y < 0 {
        (-y) as u128
    } else {
        y as u128
    };
    assert(ax == mag(x as int) && ay == mag(y as int));
    assert(ax * ay <= (FXMAX as u128) * (FXMAX as u128)) by (nonlinear_arith)
        requires
            ax <= FXMAX as u128,
            ay <= FXMAX as u128;
    let p: u128 = ax * ay;
    let q: u128 = p / (SCALE as u128);
    assert(q <= p) by (nonlinear_arith)
        requires
            q == p / (SCALE as u128),
            SCALE as u128 >= 1;
    let qi: i128 = q as i128;
    proof {
        let xi = x as int;
        let yi = y as int;
        assert(mag(xi) * mag(yi) == mag(xi * yi)) by (nonlinear_arith);
        lemma_fq_mag(xi * yi);
        if neg {
            assert(xi * yi <= 0) by (nonlinear_arith)
                requires
                    (xi < 0) != (yi < 0);
            assert(fq(xi * yi) == -(qi as int));
        } else {
            assert(xi * yi >= 0) by (nonlinear_arith)
                requires
                    !((xi < 0) != (yi < 0));
            assert(fq(xi * yi) == qi as int);
        }
    }
    if neg {
        -qi
    } else {
        qi
    }
}

/// Floor of the square root of a nonnegative integer.
pub open spec fn sqrt_floor(x: int) -> int
    decreases x,
{
    if x <= 0 {
        0
    } else {
        let r = sqrt_floor(x - 1);
        if x < (r + 1) * (r + 1) {
            r
        } else {
            r + 1
        }
    }
}

/// `sqrt_floor` is the floor of the square root: its square is at most
/// `x`, and the next square is beyond `x`.
pub proof fn lemma_sqrt_floor_props(x: int)
    requires
        x >= 0,
    ensures
        0 <= sqrt_floor(x),
        sqrt_floor(x) * sqrt_floor(x) <= x,
        x < (sqrt_floor(x) + 1) * (sqrt_floor(x) + 1),
    decreases x,
{
    if x == 0 {
        assert((0 + 1) * (0 + 1) == 1) by (nonlinear_arith);
    } else {
        lemma_sqrt_floor_props(x - 1);
        let p = sqrt_floor(x - 1);
        if x < (p + 1) * (p + 1) {
            assert(p * p <= x - 1 < x);
        } else {
            assert(x == (p + 1) * (p + 1));
            assert((p + 1) * (p + 1) < (p + 2) * (p + 2)) by (nonlinear_arith)
                requires
                    p >= 0;
        }
    }
}

/// Only one integer squares to at most `x` with the next square beyond.
pub proof fn lemma_sqrt_floor_unique(x: int, r: int)
    requires
        0 <= r,
        r * r <= x,
        x < (r + 1) * (r + 1),
    ensures
        r == sqrt_floor(x),
{
    lemma_sqrt_floor_props(x);
    let s = sqrt_floor(x);
    if r < s {
        assert((r + 1) * (r + 1) <= s * s) by (nonlinear_arith)
            requires
                0 <= r,
                r + 1 <= s;
        assert(false);
    }
    if s < r {
        assert((s + 1) * (s + 1) <= r * r) by (nonlinear_arith)
            requires
                0 <= s,
                s + 1 <= r;
        assert(false);
    }
}

/// Integer square root by bisection.
pub fn isqrt(x: u128) -> (r: u128)
    ensures
        r as int == sqrt_floor(x as int),
        (r as int) * (r as int) <= x as int,
        (x as int) < (r as int + 1) * (r as int + 1),
{
    let mut lo: u128 = 0;
    let mut hi: u128 = 0x1_0000_0000_0000_0000;
    proof {
        assert((hi as int) * (hi as int) > u128::MAX as int) by (nonlinear_arith)
            requires
                hi == 0x1_0000_0000_0000_0000u128;
    }
    while lo + 1 < hi
        invariant
            0 <= lo < hi <= 0x1_0000_0000_0000_0000u128,
            (lo as int) * (lo as int) <= x as int,
            (x as int) < (hi as int) * (hi as int),
        decreases hi - lo,
    {
        let mid: u128 = lo + (hi - lo) / 2;
        assert(lo < mid < hi);
        assert(mid * mid <= u128::MAX) by (nonlinear_arith)
            requires
                mid < 0x1_0000_0000_0000_0000u128;
        if mid * mid <= x {
            lo = mid;
        } else {
            hi = mid;
        }
    }
    proof {
        lemma_sqrt_floor_unique(x as int, lo as int);
    }
    lo
}

/// Powers of ten.
pub open spec fn pow10(e: nat) -> int
    decreases e,
{
    if e == 0 {
        1
    } else {
        10 * pow10((e - 1) as nat)
    }
}

/// Powers of ten are positive.
pub proof fn lemma_pow10_positive(e: nat)
    ensures
        pow10(e) >= 1,
    decreases e,
{
    if e > 0 {
        lemma_pow10_positive((e - 1) as nat);
    }
}

/// Powers of ten grow with the exponent.
pub proof fn lemma_pow10_monotone(a: nat, b: nat)
    requires
        a <= b,
    ensures
        pow10(a) <= pow10(b),
    decreases b,
{
    if a < b {
        lemma_pow10_monotone(a, (b - 1) as nat);
        lemma_pow10_positive((b - 1) as nat);
    }
}

/// Exponents add where powers of ten multiply.
pub proof fn lemma_pow10_add(a: nat, b: nat)
    ensures
        pow10(a + b) == pow10(a) * pow10(b),
    decreases b,
{
    if b == 0 {
        assert(pow10(a) * 1 == pow10(a)) by (nonlinear_arith);
    } else {
        lemma_pow10_add(a, (b - 1) as nat);
        assert(pow10(a) * (10 * pow10((b - 1) as nat)) == 10 * (pow10(a) * pow10(
            (b - 1) as nat,
        ))) by (nonlinear_arith);
    }
}

/// The two range constants are themselves powers of ten.
pub proof fn lemma_pow10_scale()
    ensures
        pow10(9) == SCALE as int,
        pow10(18) == FXMAX as int,
{
    reveal_with_fuel(pow10, 19);
}

/// `10^e` as a scalar.
pub fn pow10_val(e: u32) -> (r: i128)
    requires
        e <= 18,
    ensures
        r as int == pow10(e as nat),
        1 <= r <= FXMAX,
{
    let mut r: i128 = 1;
    let mut i: u32 = 0;
    proof {
        lemma_pow10_monotone(0, e as nat);
        lemma_pow10_scale();
    }
    while i < e
        invariant
            0 <= i <= e <= 18,
            r as int == pow10(i as nat),
            1 <= r as int <= pow10(18),
            pow10(18) == FXMAX as int,
        decreases e - i,
    {
        proof {
            lemma_pow10_monotone((i + 1) as nat, 18);
            lemma_pow10_positive(i as nat);
        }
        r = r * 10;
        i = i + 1;
    }
    proof {
        lemma_pow10_monotone(e as nat, 18);
    }
    r
}

/// Rounding of a nonnegative value to the nearest multiple of `u`, halves
/// rounded up.
pub open spec fn round_mag(m: int, u: int) -> int {
    ((m + u / 2) / u) * u
}

/// Rounding to the nearest multiple of `u`, halves away from zero.  The
/// result of a magnitude that rounds to nothing is the one integer zero:
/// the representation has no signed zero to normalize away.
pub open spec fn round_fx(v: int, u: int) -> int {
    if v >= 0 {
        round_mag(v, u)
    } else {
        -round_mag(-v, u)
    }
}

/// Rounding a magnitude lands on a nonnegative multiple of `u`, at most
/// half a unit away.
pub proof fn lemma_round_mag_props(m: int, u: int)
    requires
        m >= 0,
        u >= 1,
    ensures
        round_mag(m, u) >= 0,
        mag(round_mag(m, u) - m) <= u / 2,
        round_mag(m, u) % u == 0,
{
    let q = (m + u / 2) / u;
    let r = (m + u / 2) % u;
    assert(q * u + r == m + u / 2 && 0 <= r < u && q >= 0) by (nonlinear_arith)
        requires
            m >= 0,
            u >= 1,
            q == (m + u / 2) / u,
            r == (m + u / 2) % u;
    assert(q * u >= 0) by (nonlinear_arith)
        requires
            q >= 0,
            u >= 1;
    assert(round_mag(m, u) - m == u / 2 - r);
    assert((q * u) % u == 0) by (nonlinear_arith)
        requires
            u >= 1;
}

/// What rounds to zero: exactly the values whose magnitude is below half
/// a unit.
pub proof fn lemma_round_fx_zero(v: int, u: int)
    requires
        u >= 1,
    ensures
        round_fx(v, u) == 0 <==> mag(v) + u / 2 < u,
{
    let m = mag(v);
    vstd::arithmetic::div_mod::lemma_fundamental_div_mod(m + u / 2, u);
    vstd::arithmetic::div_mod::lemma_mod_bound(m + u / 2, u);
    if m + u / 2 < u {
        assert((m + u / 2) / u == 0) by (nonlinear_arith)
            requires
                0 <= m + u / 2 < u,
                u >= 1;
    } else {
        assert((m + u / 2) / u >= 1) by (nonlinear_arith)
            requires
                m + u / 2 >= u,
                u >= 1;
        assert(((m + u / 2) / u) * u >= u) by (nonlinear_arith)
            requires
                (m + u / 2) / u >= 1,
                u >= 1;
    }
    if v >= 0 {
    } else {
        assert(round_fx(v, u) == -round_mag(m, u));
    }
}

/// Rounding keeps magnitudes below any bound that is itself a multiple of
/// `u`.
pub proof fn lemma_round_fx_bound(v: int, u: int, cap: int)
    requires
        u >= 1,
        cap >= 0,
        cap % u == 0,
        mag(v) <= cap,
    ensures
        mag(round_fx(v, u)) <= cap,
{
    let m = mag(v);
    lemma_round_mag_props(m, u);
    let q = (m + u / 2) / u;
    assert(cap == (cap / u) * u) by (nonlinear_arith)
        requires
            u >= 1,
            cap % u == 0;
    assert(m + u / 2 < cap + u) by (nonlinear_arith)
        requires
            m <= cap,
            0 <= u / 2 < u;
    assert(q <= cap / u) by (nonlinear_arith)
        requires
            u >= 1,
            cap >= 0,
            q == (m + u / 2) / u,
            m + u / 2 < cap + u,
            cap == (cap / u) * u,
            m >= 0;
    assert(q * u <= (cap / u) * u) by (nonlinear_arith)
        requires
            q <= cap / u,
            u >= 1;
}

/// Round one scalar to the nearest multiple of `u`, halves away from
/// zero.
pub fn fx_round(v: i128, u: i128) -> (r: i128)
    requires
        -FXMAX <= v <= FXMAX,
        1 <= u <= SCALE,
        (FXMAX as int) % (u as int) == 0,
    ensures
        r as int == round_fx(v as int, u as int),
        -FXMAX <= r <= FXMAX,
{
    proof {
        lemma_round_fx_bound(v as int, u as int, FXMAX as int);
    }
    let m: i128 = if v < 0 {
        -v
    } else {
        v
    };
    assert(m as int == mag(v as int));
    let q: i128 = (m + u / 2) / u;
    proof {
        lemma_round_mag_props(m as int, u as int);
        assert((m as int + (u as int) / 2) / (u as int) * (u as int) <= FXMAX as int);
        assert(q as int * (u as int) >= 0) by (nonlinear_arith)
            requires
                q >= 0,
                u >= 1;
    }
    let w: i128 = q * u;
    if v < 0 {
        -w
    } else {
        w
    }
}

} // verus!
