//! Fixed-point arithmetic for the kernel.
//!
//! A quantity is an `i64` counting `SCALE` fixed-point steps per unit.
//! Products are rescaled with truncating (round-toward-zero) division, and
//! the kinematic state is kept inside fixed working ranges so that every
//! intermediate value provably fits its machine type.

use vstd::prelude::*;

verus! {

/// Fixed-point steps per unit of length (and of time).
pub const SCALE: i64 = 1_000_000;

/// Largest velocity magnitude a node may reach: one length unit per time unit.
pub const MAX_STEP: i64 = 1_000_000;

/// Working range of a position: one million length units either way.
pub const POS_LIMIT: i64 = 1_000_000_000_000;

/// Working range of a velocity (the integrator clamps to this).
pub const VEL_LIMIT: i64 = MAX_STEP;

/// Working range of a force accumulator: one billion force units either way.
pub const ACC_LIMIT: i64 = 1_000_000_000_000_000;

/// Largest timestep accepted by the integrator: one thousand time units.
pub const DT_LIMIT: i64 = 1_000_000_000;

/// Largest spring or damping coefficient: one thousand force units per unit.
pub const COEFF_LIMIT: i64 = 1_000_000_000;

/// Magnitude of an integer.
pub open spec fn iabs(x: int) -> int {
    if x >= 0 {
        x
    } else {
        -x
    }
}

/// Sign of an integer: the one-dimensional unit vector along `x`.
pub open spec fn sign_of(x: int) -> int {
    if x > 0 {
        1
    } else if x < 0 {
        -1
    } else {
        0
    }
}

/// Truncating division by a positive divisor, as the machine performs it.
pub open spec fn tdiv(x: int, d: int) -> int {
    if x >= 0 {
        x / d
    } else {
        -((-x) / d)
    }
}

/// Product of two fixed-point quantities, rescaled back to fixed point.
pub open spec fn fmul(a: int, b: int) -> int {
    tdiv(a * b, SCALE as int)
}

/// `x` clamped into the symmetric interval `[-lim, lim]`.
pub open spec fn clip(x: int, lim: int) -> int {
    if x > lim {
        lim
    } else if x < -lim {
        -lim
    } else {
        x
    }
}

/// The smaller of two integers.
pub open spec fn imin(a: int, b: int) -> int {
    if a < b {
        a
    } else {
        b
    }
}

/// A quotient is no larger than a bound on the dividend divided out.
pub proof fn lemma_tdiv_bound(x: int, d: int, l: int)
    requires
        0 < d,
        0 <= l,
        iabs(x) <= d * l,
    ensures
        iabs(tdiv(x, d)) <= l,
{
    if x >= 0 {
        vstd::arithmetic::div_mod::lemma_div_is_ordered(x, d * l, d);
        vstd::arithmetic::div_mod::lemma_div_multiples_vanish(l, d);
        vstd::arithmetic::div_mod::lemma_div_pos_is_pos(x, d);
    } else {
        vstd::arithmetic::div_mod::lemma_div_is_ordered(-x, d * l, d);
        vstd::arithmetic::div_mod::lemma_div_multiples_vanish(l, d);
        vstd::arithmetic::div_mod::lemma_div_pos_is_pos(-x, d);
    }
}

/// Dividing an exact multiple is exact.
pub proof fn lemma_tdiv_exact(k: int, d: int)
    requires
        0 < d,
    ensures
        tdiv(d * k, d) == k,
{
    if d * k >= 0 {
        vstd::arithmetic::div_mod::lemma_div_multiples_vanish(k, d);
    } else {
        assert(-(d * k) == d * (-k)) by (nonlinear_arith);
        vstd::arithmetic::div_mod::lemma_div_multiples_vanish(-k, d);
    }
}

/// A quotient of a dividend at least the divisor is at least one.
pub proof fn lemma_tdiv_at_least_one(x: int, d: int)
    requires
        0 < d <= x,
    ensures
        1 <= tdiv(x, d),
{
    vstd::arithmetic::div_mod::lemma_div_is_ordered(d, x, d);
    vstd::arithmetic::div_mod::lemma_div_by_self(d);
}

/// Bound a product from bounds on its factors.
pub proof fn lemma_abs_mul_bound(a: int, b: int, la: int, lb: int)
    requires
        iabs(a) <= la,
        iabs(b) <= lb,
    ensures
        iabs(a * b) <= la * lb,
{
    assert(iabs(a * b) <= la * lb) by (nonlinear_arith)
        requires
            iabs(a) <= la,
            iabs(b) <= lb,
    ;
}

/// Bound a rescaled product: factors whose product stays within
/// `SCALE * l` give a fixed-point product within `l`.
pub proof fn lemma_fmul_bound(a: int, b: int, l: int)
    requires
        0 <= l,
        iabs(a * b) <= SCALE as int * l,
    ensures
        iabs(fmul(a, b)) <= l,
{
    lemma_tdiv_bound(a * b, SCALE as int, l);
}

/// `x` clamped into `[-lim, lim]`, executable form.
pub fn clip64(x: i64, lim: i64) -> (r: i64)
    requires
        0 <= lim,
    ensures
        r as int == clip(x as int, lim as int),
{
    if x > lim {
        lim
    } else if x < -lim {
        -lim
    } else {
        x
    }
}

/// Fixed-point multiply, executable form. The rescaled product must fit.
pub fn scaled_mul(a: i64, b: i64) -> (r: i64)
    requires
        iabs(fmul(a as int, b as int)) <= i64::MAX,
    ensures
        r as int == fmul(a as int, b as int),
{
    let p: i128 = (a as i128) * (b as i128);
    let q: i128 = p / (SCALE as i128);
    proof {
        assert(q == tdiv(p as int, SCALE as int));
    }
    q as i64
}

/// Truncating division by six: the Runge-Kutta combination weight.
pub fn sixth64(x: i64) -> (r: i64)
    ensures
        r as int == tdiv(x as int, 6),
{
    x / 6
}

/// Truncating halving, used for midpoints and for splitting a force.
pub fn half64(x: i64) -> (r: i64)
    ensures
        r as int == tdiv(x as int, 2),
{
    x / 2
}

} // verus!
