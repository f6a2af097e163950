//! Fixed-point circular functions: a rational approximation of the sine on
//! milliradian angles, and the arctangent helper behind polar bearings.
//! The spec functions are the definition of the library's angle model; the
//! executable functions compute them exactly.

use vstd::prelude::*;
use crate::fixed::{SCALE, PI, TWO_PI, HALF_PI};
use vstd::arithmetic::div_mod::{
    lemma_small_mod, lemma_mod_sub_multiples_vanish, lemma_mod_add_multiples_vanish,
    lemma_div_pos_is_pos, lemma_div_is_ordered, lemma_div_by_multiple,
    lemma_div_multiples_vanish,
};

verus! {

/// Rational sine approximation on `[0, PI]`, scaled by `SCALE`.
/// Zero at both ends, `SCALE` at the quarter circle.
pub open spec fn half_wave(a: int) -> int {
    let p = a * (PI - a);
    (16 * p * SCALE) / (5 * (PI * PI) - 4 * p)
}

/// Sine of an angle in `[0, TWO_PI)`, scaled by `SCALE`.
pub open spec fn sin_spec(a: int) -> int {
    if a <= PI {
        half_wave(a)
    } else {
        -half_wave(a - PI)
    }
}

/// Cosine of an angle in `[0, TWO_PI)`, scaled by `SCALE`.
pub open spec fn cos_spec(a: int) -> int {
    sin_spec((a + HALF_PI) % (TWO_PI as int))
}

/// The half wave stays within `[0, SCALE]` on `[0, PI]`.
pub proof fn lemma_half_wave_bounds(a: int)
    requires
        0 <= a <= PI,
    ensures
        0 <= half_wave(a) <= SCALE,
{
    let p = a * (PI - a);
    let den = 5 * (PI * PI) - 4 * p;
    let num = 16 * p * SCALE;
    assert(0 <= p && 4 * p <= PI * PI && PI * PI == 9859600) by (nonlinear_arith)
        requires
            0 <= a <= PI,
            p == a * (PI - a),
            PI == 3140,
    ;
    assert(num >= 0 && num <= SCALE * den) by (nonlinear_arith)
        requires
            p >= 0,
            4 * p <= PI * PI,
            num == 16 * p * SCALE,
            den == 5 * (PI * PI) - 4 * p,
            SCALE == 1000,
    ;
    lemma_div_pos_is_pos(num, den);
    lemma_div_is_ordered(num, SCALE * den, den);
    lemma_div_by_multiple(SCALE as int, den);
}

/// The sine stays within `[-SCALE, SCALE]` on `[0, TWO_PI)`.
pub proof fn lemma_sin_bounds(a: int)
    requires
        0 <= a < TWO_PI,
    ensures
        -SCALE <= sin_spec(a) <= SCALE,
{
    if a <= PI {
        lemma_half_wave_bounds(a);
    } else {
        lemma_half_wave_bounds(a - PI);
    }
}

/// The half wave on `[0, PI]`, executable.
fn half_wave_fx(a: i64) -> (r: i64)
    requires
        0 <= a <= PI,
    ensures
        r == half_wave(a as int),
        0 <= r <= SCALE,
{
    proof {
        lemma_half_wave_bounds(a as int);
        assert(0 <= a * (PI - a) <= 2464900) by (nonlinear_arith)
            requires
                0 <= a <= PI,
                PI == 3140,
        ;
    }
    let p: i64 = a * (PI - a);
    let num: i64 = 16 * p * SCALE;
    let den: i64 = 5 * (PI * PI) - 4 * p;
    num / den
}

/// Sine of an angle in `[0, TWO_PI)`.
pub fn sin_fx(a: i64) -> (r: i64)
    requires
        0 <= a < TWO_PI,
    ensures
        r == sin_spec(a as int),
        -SCALE <= r <= SCALE,
{
    if a <= PI {
        half_wave_fx(a)
    } else {
        -half_wave_fx(a - PI)
    }
}

/// Cosine of an angle in `[0, TWO_PI)`.
pub fn cos_fx(a: i64) -> (r: i64)
    requires
        0 <= a < TWO_PI,
    ensures
        r == cos_spec(a as int),
        -SCALE <= r <= SCALE,
{
    let b: i64 = if a + HALF_PI >= TWO_PI {
        a + HALF_PI - TWO_PI
    } else {
        a + HALF_PI
    };
    proof {
        if a + HALF_PI >= TWO_PI {
            lemma_mod_sub_multiples_vanish((a + HALF_PI) as int, TWO_PI as int);
        }
        lemma_small_mod(b as nat, TWO_PI as nat);
    }
    sin_fx(b)
}

/// Arctangent of the ratio `t` in `[0, SCALE]`, in milliradians.
pub open spec fn atan_ratio(t: int) -> int {
    (t * 785) / 1000 + (t * 273 * (1000 - t)) / 1000000
}

/// The arctangent of a ratio in `[0, 1]` lies in `[0, HALF_PI)`.
pub proof fn lemma_atan_ratio_bounds(t: int)
    requires
        0 <= t <= SCALE,
    ensures
        0 <= atan_ratio(t) < HALF_PI,
{
    assert(0 <= t * 785 <= 785000) by (nonlinear_arith)
        requires
            0 <= t <= 1000,
    ;
    assert(0 <= t * 273 * (1000 - t) <= 273000000) by (nonlinear_arith)
        requires
            0 <= t <= 1000,
    ;
    lemma_div_pos_is_pos(t * 785, 1000);
    lemma_div_is_ordered(t * 785, 785000, 1000);
    lemma_div_pos_is_pos(t * 273 * (1000 - t), 1000000);
    lemma_div_is_ordered(t * 273 * (1000 - t), 273000000, 1000000);
}

/// Arctangent of `num / den`, both nonnegative with `num <= den`, `den > 0`.
fn atan_ratio_of(num: i64, den: i64) -> (r: i64)
    requires
        0 <= num <= den,
        0 < den,
        num <= 2_000_000_000,
        den <= 2_000_000_000,
    ensures
        r == atan_ratio((num * 1000) / (den as int)),
        0 <= r < HALF_PI,
{
    let t: i64 = (num * 1000) / den;
    proof {
        assert(0 <= num * 1000 <= den * 1000) by (nonlinear_arith)
            requires
                0 <= num <= den,
        ;
        lemma_div_pos_is_pos(num * 1000, den as int);
        lemma_div_is_ordered(num * 1000, den * 1000, den as int);
        lemma_div_multiples_vanish(1000, den as int);
        lemma_atan_ratio_bounds(t as int);
        assert(0 <= t * 273 * (1000 - t) <= 273000000) by (nonlinear_arith)
            requires
                0 <= t <= 1000,
        ;
    }
    (t * 785) / 1000 + (t * 273 * (1000 - t)) / 1000000
}

/// Polar angle of the vector `(x, y)`, in `[0, TWO_PI)`: the arctangent of
/// `y / x` folded into the proper quadrant.  The zero vector maps to zero.
pub open spec fn arc_tan_spec(y: int, x: int) -> int {
    let ay = if y >= 0 { y } else { -y };
    let ax = if x >= 0 { x } else { -x };
    if x == 0 && y == 0 {
        0
    } else if x == 0 {
        if y > 0 {
            HALF_PI as int
        } else {
            PI + HALF_PI
        }
    } else {
        let base = if ay <= ax {
            atan_ratio((ay * 1000) / ax)
        } else {
            HALF_PI - atan_ratio((ax * 1000) / ay)
        };
        if x > 0 && y >= 0 {
            base
        } else if x < 0 {
            if y >= 0 {
                PI - base
            } else {
                PI + base
            }
        } else {
            if base == 0 {
                0
            } else {
                TWO_PI - base
            }
        }
    }
}

/// The polar angle lies in `[0, TWO_PI)`.
pub proof fn lemma_arc_tan_range(y: int, x: int)
    ensures
        0 <= arc_tan_spec(y, x) < TWO_PI,
{
    let ay = if y >= 0 { y } else { -y };
    let ax = if x >= 0 { x } else { -x };
    if x == 0 && y == 0 {
    } else if x == 0 {
    } else {
        if ay <= ax {
            assert(0 <= ay * 1000 <= ax * 1000) by (nonlinear_arith)
                requires
                    0 <= ay <= ax,
            ;
            lemma_div_pos_is_pos(ay * 1000, ax);
            lemma_div_is_ordered(ay * 1000, ax * 1000, ax);
            lemma_div_multiples_vanish(1000, ax);
            lemma_atan_ratio_bounds((ay * 1000) / ax);
        } else {
            assert(0 <= ax * 1000 <= ay * 1000) by (nonlinear_arith)
                requires
                    0 <= ax <= ay,
            ;
            lemma_div_pos_is_pos(ax * 1000, ay);
            lemma_div_is_ordered(ax * 1000, ay * 1000, ay);
            lemma_div_multiples_vanish(1000, ay);
            lemma_atan_ratio_bounds((ax * 1000) / ay);
        }
    }
}

/// Polar angle of the vector `(x, y)`.
pub fn arc_tan_fx(y: i64, x: i64) -> (r: i64)
    requires
        -2_000_000_000 <= y <= 2_000_000_000,
        -2_000_000_000 <= x <= 2_000_000_000,
    ensures
        r == arc_tan_spec(y as int, x as int),
        0 <= r < TWO_PI,
{
    proof {
        lemma_arc_tan_range(y as int, x as int);
    }
    let ay: i64 = if y >= 0 { y } else { -y };
    let ax: i64 = if x >= 0 { x } else { -x };
    if x == 0 && y == 0 {
        0
    } else if x == 0 {
        if y > 0 {
            HALF_PI
        } else {
            PI + HALF_PI
        }
    } else {
        let base: i64 = if ay <= ax {
            atan_ratio_of(ay, ax)
        } else {
            HALF_PI - atan_ratio_of(ax, ay)
        };
        if x > 0 && y >= 0 {
            base
        } else if x < 0 {
            if y >= 0 {
                PI - base
            } else {
                PI + base
            }
        } else {
            if base == 0 {
                0
            } else {
                TWO_PI - base
            }
        }
    }
}

/// Reduce an angle into `[0, TWO_PI)`; the spec value is the Euclidean
/// remainder by `TWO_PI`.
pub fn wrap_angle(a: i64) -> (r: i64)
    requires
        -1_000_000_000_000 <= a <= 1_000_000_000_000,
    ensures
        r == (a as int) % (TWO_PI as int),
        0 <= r < TWO_PI,
{
    let mut v: i64 = a;
    while v >= TWO_PI
        invariant
            (v as int) % (TWO_PI as int) == (a as int) % (TWO_PI as int),
            -1_000_000_000_000 <= v <= 1_000_000_000_000,
        decreases v,
    {
        proof {
            lemma_mod_sub_multiples_vanish(v as int, TWO_PI as int);
        }
        v = v - TWO_PI;
    }
    while v < 0
        invariant
            (v as int) % (TWO_PI as int) == (a as int) % (TWO_PI as int),
            v < TWO_PI,
            -1_000_000_000_000 <= v,
        decreases TWO_PI - v,
    {
        proof {
            lemma_mod_add_multiples_vanish(v as int, TWO_PI as int);
        }
        v = v + TWO_PI;
    }
    proof {
        lemma_small_mod(v as nat, TWO_PI as nat);
    }
    v
}

} // verus!
