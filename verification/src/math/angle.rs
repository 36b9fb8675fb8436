use vstd::prelude::*;

use crate::math::num::{div_i64_trunc, div_trunc_spec, lemma_div_trunc_mod, MILLI};

verus! {

/// One half turn, in milliradians (pi, rounded down).
pub const PI_MILLI: i64 = 3141;

/// One full turn, in milliradians: exactly twice `PI_MILLI`, so that the
/// reduction below is periodic in a whole number of units.
pub const TWO_PI_MILLI: i64 = 6282;

/// One quarter turn, in milliradians.
pub const HALF_PI_MILLI: i64 = 1570;

/// The largest angle magnitude the trigonometric helpers accept.
pub const ANGLE_LIMIT: i64 = 1_000_000_000_000_000;

/// `theta` reduced into the half-open range `[-PI_MILLI, PI_MILLI)` by
/// whole turns.
pub open spec fn norm_angle(theta: int) -> int {
    let r = theta % (TWO_PI_MILLI as int);
    if r >= PI_MILLI {
        r - TWO_PI_MILLI
    } else {
        r
    }
}

/// The rational cosine approximation on the quarter-turn range, in
/// thousandths: `(p² - 4x²) * 1000 / (p² + x²)` with `p = PI_MILLI`. It is
/// exact at zero and at the quarter turn.
pub open spec fn cos_core(x: int) -> int {
    (PI_MILLI * PI_MILLI - 4 * (x * x)) * MILLI / (PI_MILLI * PI_MILLI + x * x)
}

/// Cosine of `theta` milliradians, in thousandths: the angle is reduced by
/// whole turns, folded into the quarter-turn range, and approximated there.
pub open spec fn spec_cos(theta: int) -> int {
    let r = norm_angle(theta);
    if r < -HALF_PI_MILLI {
        -cos_core(PI_MILLI + r)
    } else if r <= HALF_PI_MILLI {
        cos_core(r)
    } else {
        -cos_core(PI_MILLI - r)
    }
}

/// Sine of `theta` milliradians, in thousandths: the cosine a quarter turn
/// behind.
pub open spec fn spec_sin(theta: int) -> int {
    spec_cos(theta - HALF_PI_MILLI)
}

/// The quarter-turn approximation stays within one unit.
pub proof fn lemma_cos_core_bounds(x: int)
    requires
        -HALF_PI_MILLI <= x <= HALF_PI_MILLI,
    ensures
        0 <= cos_core(x) <= MILLI,
{
    let num = (PI_MILLI * PI_MILLI - 4 * (x * x)) * MILLI;
    let den = PI_MILLI * PI_MILLI + x * x;
    assert(num >= 0 && den > 0 && num <= MILLI * den) by (nonlinear_arith)
        requires
            num == (PI_MILLI * PI_MILLI - 4 * (x * x)) * MILLI,
            den == PI_MILLI * PI_MILLI + x * x,
            -HALF_PI_MILLI <= x <= HALF_PI_MILLI,
    ;
    vstd::arithmetic::div_mod::lemma_fundamental_div_mod(num, den);
    vstd::arithmetic::div_mod::lemma_mod_bound(num, den);
    vstd::arithmetic::div_mod::lemma_div_pos_is_pos(num, den);
    assert(num / den <= MILLI) by (nonlinear_arith)
        requires
            den * (num / den) + num % den == num,
            num % den >= 0,
            (num % den) < den,
            num <= MILLI * den,
            den > 0,
    ;
}

/// The cosine and sine approximations stay within one unit for any angle.
pub proof fn lemma_spec_cos_sin_bounds(theta: int)
    ensures
        -MILLI <= spec_cos(theta) <= MILLI,
        -MILLI <= spec_sin(theta) <= MILLI,
{
    lemma_norm_cos_bounds(theta);
    lemma_norm_cos_bounds(theta - HALF_PI_MILLI);
}

/// The cosine approximation stays within one unit for any angle.
proof fn lemma_norm_cos_bounds(theta: int)
    ensures
        -MILLI <= spec_cos(theta) <= MILLI,
{
    vstd::arithmetic::div_mod::lemma_mod_bound(theta, TWO_PI_MILLI as int);
    let r = norm_angle(theta);
    if r < -HALF_PI_MILLI {
        lemma_cos_core_bounds(PI_MILLI + r);
    } else if r <= HALF_PI_MILLI {
        lemma_cos_core_bounds(r);
    } else {
        lemma_cos_core_bounds(PI_MILLI - r);
    }
}

/// Evaluates `cos_core` on a folded angle, with its range facts.
fn cos_core_exec(x: i64) -> (r: i64)
    requires
        0 <= x <= HALF_PI_MILLI,
    ensures
        r == cos_core(x as int),
        0 <= r <= MILLI,
{
    proof {
        assert(0 <= x * x <= HALF_PI_MILLI * HALF_PI_MILLI) by (nonlinear_arith)
            requires
                0 <= x <= HALF_PI_MILLI,
        ;
    }
    let num: i64 = (PI_MILLI * PI_MILLI - 4 * (x * x)) * MILLI;
    let den: i64 = PI_MILLI * PI_MILLI + x * x;
    proof {
        assert(num >= 0 && den > 0 && num <= MILLI * den) by (nonlinear_arith)
            requires
                num == (PI_MILLI * PI_MILLI - 4 * (x * x)) * MILLI,
                den == PI_MILLI * PI_MILLI + x * x,
                0 <= x <= HALF_PI_MILLI,
        ;
        vstd::arithmetic::div_mod::lemma_fundamental_div_mod(num as int, den as int);
        vstd::arithmetic::div_mod::lemma_mod_bound(num as int, den as int);
        vstd::arithmetic::div_mod::lemma_div_pos_is_pos(num as int, den as int);
        assert(num as int / den as int <= MILLI) by (nonlinear_arith)
            requires
                den * (num as int / den as int) + num as int % den as int == num,
                num as int % den as int >= 0,
                (num as int % den as int) < den,
                num <= MILLI * den,
                den > 0,
        ;
    }
    num / den
}

/// Reduces `theta` into `[-PI_MILLI, PI_MILLI)` by whole turns.
fn norm_angle_exec(theta: i64) -> (r: i64)
    requires
        -ANGLE_LIMIT <= theta <= ANGLE_LIMIT,
    ensures
        r == norm_angle(theta as int),
        -PI_MILLI <= r < PI_MILLI,
{
    let q = div_i64_trunc(theta, TWO_PI_MILLI);
    proof {
        lemma_div_trunc_mod(theta as int, TWO_PI_MILLI as int);
        crate::math::num::lemma_div_trunc_range(theta as int, TWO_PI_MILLI as int);
    }
    let rem_w: i128 = theta as i128 - (q as i128) * (TWO_PI_MILLI as i128);
    let rem: i64 = rem_w as i64;
    let pos_rem: i64 = if rem < 0 {
        rem + TWO_PI_MILLI
    } else {
        rem
    };
    proof {
        if rem < 0 {
            vstd::arithmetic::div_mod::lemma_fundamental_div_mod_converse(
                theta as int,
                TWO_PI_MILLI as int,
                q as int - 1,
                pos_rem as int,
            );
            assert((q as int - 1) * TWO_PI_MILLI == q as int * TWO_PI_MILLI - TWO_PI_MILLI)
                by (nonlinear_arith);
        } else {
            vstd::arithmetic::div_mod::lemma_fundamental_div_mod_converse(
                theta as int,
                TWO_PI_MILLI as int,
                q as int,
                pos_rem as int,
            );
        }
        assert(theta as int % (TWO_PI_MILLI as int) == pos_rem);
    }
    if pos_rem >= PI_MILLI {
        pos_rem - TWO_PI_MILLI
    } else {
        pos_rem
    }
}

/// Cosine of `theta` milliradians, in thousandths; see `spec_cos`.
pub fn cos_milli(theta: i64) -> (r: i64)
    requires
        -ANGLE_LIMIT <= theta <= ANGLE_LIMIT,
    ensures
        r == spec_cos(theta as int),
        -MILLI <= r <= MILLI,
{
    let n = norm_angle_exec(theta);
    if n < -HALF_PI_MILLI {
        -cos_core_exec(PI_MILLI + n)
    } else if n <= HALF_PI_MILLI {
        let m = if n < 0 {
            -n
        } else {
            n
        };
        proof {
            assert(cos_core(m as int) == cos_core(n as int)) by (nonlinear_arith)
                requires
                    m as int == if n < 0 {
                        -(n as int)
                    } else {
                        n as int
                    },
            ;
        }
        cos_core_exec(m)
    } else {
        -cos_core_exec(PI_MILLI - n)
    }
}

/// Sine of `theta` milliradians, in thousandths; see `spec_sin`. The angle
/// is reduced by whole turns first, so the quarter-turn shift stays in
/// range.
pub fn sin_milli(theta: i64) -> (r: i64)
    requires
        -ANGLE_LIMIT <= theta <= ANGLE_LIMIT,
    ensures
        r == spec_sin(theta as int),
        -MILLI <= r <= MILLI,
{
    let n = norm_angle_exec(theta);
    let r = cos_milli(n - HALF_PI_MILLI);
    proof {
        let m = TWO_PI_MILLI as int;
        vstd::arithmetic::div_mod::lemma_fundamental_div_mod(theta as int, m);
        let k: int = if theta as int % m >= PI_MILLI {
            theta as int / m + 1
        } else {
            theta as int / m
        };
        assert(theta as int - n as int == m * k);
        vstd::arithmetic::div_mod::lemma_mod_multiples_vanish(
            k,
            n as int - HALF_PI_MILLI,
            m,
        );
        assert(m * k + (n as int - HALF_PI_MILLI) == theta as int - HALF_PI_MILLI);
        assert((theta as int - HALF_PI_MILLI) % m == (n as int - HALF_PI_MILLI) % m);
        assert(spec_cos(n as int - HALF_PI_MILLI) == spec_cos(theta as int - HALF_PI_MILLI));
    }
    r
}

} // verus!
