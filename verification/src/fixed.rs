//! Fixed-point scalar arithmetic for the layout engine.
//!
//! Coordinates are plain `i64` values; the tunable coefficients are
//! fixed-point numbers scaled by [`SCALE`]. This module supplies the scalar
//! building blocks the force kernels and the integrator share: an integer
//! square root, a truncating `c * num / den` scaling step, and the lemma
//! that radial rescaling never lengthens a vector beyond its target.

use vstd::arithmetic::div_mod::{
    lemma_div_by_self, lemma_div_denominator, lemma_div_is_ordered,
    lemma_div_is_ordered_by_denominator, lemma_div_multiples_vanish,
    lemma_div_nonincreasing, lemma_div_of0, lemma_div_pos_is_pos, lemma_fundamental_div_mod,
    lemma_mod_division_less_than_divisor,
};
use vstd::prelude::*;

verus! {

/// Number of fixed-point steps per coordinate unit: a coefficient value of
/// `SCALE` means `1.0` in coordinate units.
pub const SCALE: u64 = 1_000_000;

/// Largest accepted value for the repulsion, attraction, centering, ideal
/// distance and maximum step coefficients (1000 coordinate units, scaled).
pub const COEFF_LIMIT: u64 = 1_000_000_000;

/// Largest accepted value for the layout diameter (one million coordinate
/// units, scaled).
pub const DIAMETER_LIMIT: u64 = 1_000_000_000_000;

/// Largest coordinate magnitude a well-formed graph may hold.
pub const POS_LIMIT: i64 = 100_000_000;

/// Saturation bound of the per-node displacement accumulator.
pub const DISP_LIMIT: i128 = 1_000_000_000_000_000_000;

/// The squared Euclidean norm of the vector `(x, y)`.
pub open spec fn norm2(x: int, y: int) -> int {
    x * x + y * y
}

/// Floor of the square root of `n`, defined by counting up from zero.
pub open spec fn sqrt_floor(n: int) -> int
    recommends
        n >= 0,
    decreases n,
{
    if n <= 0 {
        0
    } else {
        let p = sqrt_floor(n - 1);
        if (p + 1) * (p + 1) <= n {
            p + 1
        } else {
            p
        }
    }
}

/// Ceiling of the square root of `n`.
pub open spec fn sqrt_ceil(n: int) -> int
    recommends
        n >= 0,
{
    if sqrt_floor(n) * sqrt_floor(n) == n {
        sqrt_floor(n)
    } else {
        sqrt_floor(n) + 1
    }
}

/// `sqrt_floor(n)` satisfies the characteristic square root bounds.
pub proof fn lemma_sqrt_floor_bounds(n: int)
    requires
        n >= 0,
    ensures
        0 <= sqrt_floor(n),
        sqrt_floor(n) * sqrt_floor(n) <= n,
        n < (sqrt_floor(n) + 1) * (sqrt_floor(n) + 1),
    decreases n,
{
    if n == 0 {
    } else {
        lemma_sqrt_floor_bounds(n - 1);
        let p = sqrt_floor(n - 1);
        if (p + 1) * (p + 1) <= n {
            assert(n < (p + 2) * (p + 2)) by (nonlinear_arith)
                requires
                    p >= 0,
                    n - 1 < (p + 1) * (p + 1),
            ;
        }
    }
}

/// A square root is pinned down by its characteristic bounds.
pub proof fn lemma_sqrt_floor_unique(n: int, r: int)
    requires
        n >= 0,
        r >= 0,
        r * r <= n,
        n < (r + 1) * (r + 1),
    ensures
        r == sqrt_floor(n),
{
    lemma_sqrt_floor_bounds(n);
    let s = sqrt_floor(n);
    assert(r == s) by (nonlinear_arith)
        requires
            r >= 0,
            s >= 0,
            r * r <= n,
            n < (r + 1) * (r + 1),
            s * s <= n,
            n < (s + 1) * (s + 1),
    ;
}

/// The ceiling square root dominates `n` by its square and is positive for
/// positive `n`.
pub proof fn lemma_sqrt_ceil_bounds(n: int)
    requires
        n >= 0,
    ensures
        0 <= sqrt_ceil(n),
        n <= sqrt_ceil(n) * sqrt_ceil(n),
        n >= 1 ==> sqrt_ceil(n) >= 1,
{
    lemma_sqrt_floor_bounds(n);
}

/// Floor of the square root of `n`, by binary search.
pub fn isqrt(n: u128) -> (r: u128)
    ensures
        r == sqrt_floor(n as int),
        r * r <= n,
{
    let mut lo: u128 = 0;
    let mut hi: u128 = 0x1_0000_0000_0000_0000;
    while lo + 1 < hi
        invariant
            0 <= lo < hi <= 0x1_0000_0000_0000_0000,
            (lo as int) * (lo as int) <= n as int,
            (n as int) < (hi as int) * (hi as int),
        decreases hi - lo,
    {
        let mid: u128 = lo + (hi - lo) / 2;
        assert(lo < mid < hi);
        assert(mid * mid <= u128::MAX) by (nonlinear_arith)
            requires
                0 <= mid < 0x1_0000_0000_0000_0000u128,
        ;
        if mid * mid <= n {
            lo = mid;
        } else {
            hi = mid;
        }
    }
    proof {
        lemma_sqrt_floor_unique(n as int, lo as int);
    }
    lo
}

/// Ceiling of the square root of `n`, by binary search.
pub fn isqrt_ceil(n: u128) -> (r: u128)
    ensures
        r == sqrt_ceil(n as int),
        n <= r * r,
        n >= 1 ==> r >= 1 && (r - 1) * (r - 1) < n,
{
    let f = isqrt(n);
    proof {
        lemma_sqrt_floor_bounds(n as int);
        assert(f < 0x1_0000_0000_0000_0000u128) by (nonlinear_arith)
            requires
                (f as int) * (f as int) <= u128::MAX as int,
        ;
        if n >= 1 {
            assert(f >= 1) by (nonlinear_arith)
                requires
                    n as int >= 1,
                    f as int >= 0,
                    (n as int) < (f as int + 1) * (f as int + 1),
            ;
            if (f as int) * (f as int) == n as int {
                assert((f as int - 1) * (f as int - 1) < (f as int) * (f as int))
                    by (nonlinear_arith)
                    requires
                        f as int >= 1,
                ;
            }
        }
    }
    if f * f == n {
        f
    } else {
        f + 1
    }
}

/// `c * num / den` with the division truncated toward zero, for a scaling
/// factor `num / den` that is never negative.
pub open spec fn mul_div_toward_zero(c: int, num: int, den: int) -> int
    recommends
        num >= 0,
        den >= 1,
{
    if c >= 0 {
        (c * num) / den
    } else {
        -(((-c) * num) / den)
    }
}

/// For a nonnegative value, the truncating scaling is nonnegative, bounded by
/// the exact product, and its square scales accordingly.
proof fn lemma_scaled_square_bound(a: int, num: int, den: int)
    requires
        a >= 0,
        num >= 0,
        den >= 1,
    ensures
        (a * num) / den >= 0,
        ((a * num) / den) * den <= a * num,
        ((a * num) / den) * ((a * num) / den) * (den * den) <= (a * a) * (num * num),
{
    let p = a * num;
    let q = p / den;
    assert(p >= 0) by (nonlinear_arith)
        requires
            a >= 0,
            num >= 0,
            p == a * num,
    ;
    lemma_div_pos_is_pos(p, den);
    lemma_fundamental_div_mod(p, den);
    lemma_mod_division_less_than_divisor(p, den);
    assert(q * den <= p) by (nonlinear_arith)
        requires
            p == den * q + p % den,
            p % den >= 0,
    ;
    assert(q * q * (den * den) <= p * p) by (nonlinear_arith)
        requires
            0 <= q,
            0 <= p,
            1 <= den,
            q * den <= p,
    ;
    assert(p * p == (a * a) * (num * num)) by (nonlinear_arith)
        requires
            p == a * num,
    ;
}

/// Squaring a truncating scaling erases its sign handling.
proof fn lemma_mul_div_toward_zero_square(c: int, num: int, den: int)
    requires
        num >= 0,
        den >= 1,
    ensures
        mul_div_toward_zero(c, num, den) * mul_div_toward_zero(c, num, den) * (den * den) <= (c * c)
            * (num * num),
{
    if c >= 0 {
        lemma_scaled_square_bound(c, num, den);
    } else {
        lemma_scaled_square_bound(-c, num, den);
        let q = ((-c) * num) / den;
        assert((-q) * (-q) * (den * den) == q * q * (den * den)) by (nonlinear_arith);
        assert(((-c) * (-c)) * (num * num) == (c * c) * (num * num)) by (nonlinear_arith);
    }
}

/// Radial rescaling by `num / den` of a vector no longer than `den` yields a
/// vector no longer than `num`: the heart of both the per-tick step clamp and
/// the containment clamp.
pub proof fn lemma_rescale_norm_bound(x: int, y: int, num: int, den: int)
    requires
        num >= 0,
        den >= 1,
        norm2(x, y) <= den * den,
    ensures
        norm2(mul_div_toward_zero(x, num, den), mul_div_toward_zero(y, num, den)) <= num * num,
{
    let sx = mul_div_toward_zero(x, num, den);
    let sy = mul_div_toward_zero(y, num, den);
    lemma_mul_div_toward_zero_square(x, num, den);
    lemma_mul_div_toward_zero_square(y, num, den);
    assert(sx * sx >= 0 && sy * sy >= 0) by (nonlinear_arith);
    assert((sx * sx + sy * sy) * (den * den) <= ((x * x) + (y * y)) * (num * num))
        by (nonlinear_arith)
        requires
            sx * sx * (den * den) <= (x * x) * (num * num),
            sy * sy * (den * den) <= (y * y) * (num * num),
    ;
    assert(sx * sx + sy * sy <= num * num) by (nonlinear_arith)
        requires
            (sx * sx + sy * sy) * (den * den) <= ((x * x) + (y * y)) * (num * num),
            (x * x) + (y * y) <= den * den,
            den >= 1,
            sx * sx + sy * sy >= 0,
    ;
}

/// Rescaling a vector no longer than `dc` by `num / (s * dc)` yields a
/// vector no longer than `num / s`, stated without dividing: the scaled
/// square norm stays under `num * num`.
pub proof fn lemma_rescale_norm_bound_scaled(x: int, y: int, num: int, s: int, dc: int)
    requires
        num >= 0,
        s >= 1,
        dc >= 1,
        norm2(x, y) <= dc * dc,
    ensures
        (s * s) * norm2(
            mul_div_toward_zero(x, num, s * dc),
            mul_div_toward_zero(y, num, s * dc),
        ) <= num * num,
{
    let den = s * dc;
    assert(den >= 1) by (nonlinear_arith)
        requires
            den == s * dc,
            s >= 1,
            dc >= 1,
    ;
    let sx = mul_div_toward_zero(x, num, den);
    let sy = mul_div_toward_zero(y, num, den);
    lemma_mul_div_toward_zero_square(x, num, den);
    lemma_mul_div_toward_zero_square(y, num, den);
    let n2 = sx * sx + sy * sy;
    assert(n2 >= 0) by (nonlinear_arith)
        requires
            n2 == sx * sx + sy * sy,
    ;
    assert((s * s) * n2 * (dc * dc) == sx * sx * (den * den) + sy * sy * (den * den))
        by (nonlinear_arith)
        requires
            den == s * dc,
            n2 == sx * sx + sy * sy,
    ;
    assert((x * x) * (num * num) + (y * y) * (num * num) == ((x * x) + (y * y)) * (num * num))
        by (nonlinear_arith);
    assert(((x * x) + (y * y)) * (num * num) <= (dc * dc) * (num * num)) by (nonlinear_arith)
        requires
            (x * x) + (y * y) <= dc * dc,
    ;
    assert((s * s) * n2 <= num * num) by (nonlinear_arith)
        requires
            (s * s) * n2 * (dc * dc) <= (dc * dc) * (num * num),
            dc >= 1,
            s >= 1,
            n2 >= 0,
    ;
}

/// Each component of a truncating scaling is bounded through a magnitude
/// bound on its input.
pub proof fn lemma_mul_div_toward_zero_abs_le(c: int, bound: int, num: int, den: int)
    requires
        num >= 0,
        den >= 1,
        0 <= bound,
        -bound <= c <= bound,
    ensures
        -((bound * num) / den) <= mul_div_toward_zero(c, num, den) <= (bound * num) / den,
        (bound * num) / den >= 0,
{
    lemma_scaled_square_bound(bound, num, den);
    if c >= 0 {
        lemma_scaled_square_bound(c, num, den);
        assert(c * num <= bound * num) by (nonlinear_arith)
            requires
                0 <= c <= bound,
                num >= 0,
        ;
        lemma_div_is_ordered(c * num, bound * num, den);
    } else {
        lemma_scaled_square_bound(-c, num, den);
        assert((-c) * num <= bound * num) by (nonlinear_arith)
            requires
                0 <= -c <= bound,
                num >= 0,
        ;
        lemma_div_is_ordered((-c) * num, bound * num, den);
    }
}

/// A product of a bounded value with a bounded nonnegative factor stays
/// inside the product of the bounds.
pub proof fn lemma_abs_mul_le(c: int, bound: int, num: int, num_bound: int)
    by (nonlinear_arith)
    requires
        0 <= bound,
        -bound <= c <= bound,
        0 <= num <= num_bound,
    ensures
        -(bound * num_bound) <= c * num <= bound * num_bound,
{
}

/// A coarse magnitude bound for a truncating scaling, through bounds on the
/// input and the numerator alone.
pub proof fn lemma_mul_div_delta_bound(c: int, bound: int, num: int, num_bound: int, den: int)
    requires
        num >= 0,
        den >= 1,
        0 <= bound,
        -bound <= c <= bound,
        num <= num_bound,
    ensures
        -(bound * num_bound) <= mul_div_toward_zero(c, num, den) <= bound * num_bound,
{
    lemma_mul_div_toward_zero_abs_le(c, bound, num, den);
    assert(bound * num >= 0) by (nonlinear_arith)
        requires
            bound >= 0,
            num >= 0,
    ;
    lemma_div_nonincreasing(bound * num, den);
    assert(bound * num <= bound * num_bound) by (nonlinear_arith)
        requires
            bound >= 0,
            num <= num_bound,
    ;
}

/// Scaling a value no larger than `dc` by `num / (s * dc)` keeps it within
/// `num`.
pub proof fn lemma_mul_div_le_factor(c: int, num: int, s: int, dc: int)
    requires
        num >= 0,
        s >= 1,
        dc >= 1,
        -dc <= c <= dc,
    ensures
        -num <= mul_div_toward_zero(c, num, s * dc) <= num,
{
    let den = s * dc;
    assert(den >= dc && den >= 1) by (nonlinear_arith)
        requires
            den == s * dc,
            s >= 1,
            dc >= 1,
    ;
    lemma_mul_div_toward_zero_abs_le(c, dc, num, den);
    assert(dc * num <= den * num) by (nonlinear_arith)
        requires
            1 <= dc <= den,
            num >= 0,
    ;
    lemma_div_is_ordered(dc * num, den * num, den);
    lemma_div_multiples_vanish(num, den);
}

/// `c * num / den` truncated toward zero, on wide integers.
///
/// The bounds keep every intermediate product inside `u128` and the result
/// inside `i128`.
pub fn mul_div_i128(c: i128, num: u128, den: u128) -> (r: i128)
    requires
        den >= 1,
        -(i128::MAX as int) <= c as int,
        (c as int) * (num as int) <= i128::MAX as int,
        -(i128::MAX as int) <= (c as int) * (num as int),
    ensures
        r == mul_div_toward_zero(c as int, num as int, den as int),
{
    if c >= 0 {
        proof {
            assert((c as u128 as int) * (num as int) == (c as int) * (num as int));
        }
        let prod: u128 = (c as u128) * num;
        let q: u128 = prod / den;
        proof {
            lemma_scaled_square_bound(c as int, num as int, den as int);
            lemma_div_nonincreasing(prod as int, den as int);
        }
        q as i128
    } else {
        let mag: u128 = (-c) as u128;
        proof {
            assert((mag as int) * (num as int) == -((c as int) * (num as int)))
                by (nonlinear_arith)
                requires
                    mag as int == -(c as int),
            ;
        }
        let prod: u128 = mag * num;
        let q: u128 = prod / den;
        proof {
            lemma_scaled_square_bound(-(c as int), num as int, den as int);
            lemma_div_nonincreasing(prod as int, den as int);
        }
        -(q as i128)
    }
}


/// The square root of a perfect square is exact, for floor and ceiling
/// alike.
pub proof fn lemma_sqrt_of_square(z: int)
    requires
        z >= 0,
    ensures
        sqrt_floor(z * z) == z,
        sqrt_ceil(z * z) == z,
{
    assert(z * z >= 0 && z * z < (z + 1) * (z + 1)) by (nonlinear_arith)
        requires
            z >= 0,
    ;
    lemma_sqrt_floor_unique(z * z, z);
}

/// Scaling by zero yields zero.
pub proof fn lemma_mul_div_of_zero_num(c: int, den: int)
    requires
        den >= 1,
    ensures
        mul_div_toward_zero(c, 0, den) == 0,
        mul_div_toward_zero(0, c, den) == 0,
{
    lemma_div_of0(den);
    assert(c * 0 == 0 && (-c) * 0 == 0 && 0 * c == 0) by (nonlinear_arith);
}

/// The shared factor of a numerator and a denominator cancels:
/// `(t * m) / (s * t) == m / s`.
pub proof fn lemma_mul_div_cancel(t: int, m: int, s: int)
    requires
        t >= 1,
        m >= 0,
        s >= 1,
    ensures
        (t * m) / (s * t) == m / s,
{
    assert(s * t == t * s) by (nonlinear_arith);
    assert(t * m >= 0) by (nonlinear_arith)
        requires
            t >= 1,
            m >= 0,
    ;
    lemma_div_denominator(t * m, t, s);
    lemma_div_multiples_vanish(m, t);
}

/// A quotient of a value at least its positive divisor is at least one.
pub proof fn lemma_div_at_least_one(x: int, k: int)
    requires
        1 <= k <= x,
    ensures
        x / k >= 1,
{
    lemma_div_is_ordered(k, x, k);
    lemma_div_by_self(k);
}


/// A magnitude bound for a truncating scaling with a lower-bounded
/// denominator.
pub proof fn lemma_mul_div_bound_by_den(
    c: int,
    bound: int,
    num: int,
    num_bound: int,
    den: int,
    den_min: int,
)
    requires
        num >= 0,
        0 <= bound,
        -bound <= c <= bound,
        num <= num_bound,
        1 <= den_min <= den,
    ensures
        -((bound * num_bound) / den_min) <= mul_div_toward_zero(c, num, den) <= (bound * num_bound)
            / den_min,
{
    lemma_mul_div_toward_zero_abs_le(c, bound, num, den);
    assert(bound * num <= bound * num_bound) by (nonlinear_arith)
        requires
            bound >= 0,
            num <= num_bound,
    ;
    assert(bound * num >= 0) by (nonlinear_arith)
        requires
            bound >= 0,
            num >= 0,
    ;
    lemma_div_is_ordered(bound * num, bound * num_bound, den);
    lemma_div_is_ordered_by_denominator(bound * num_bound, den_min, den);
}

} // verus!
