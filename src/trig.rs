use vstd::prelude::*;
use crate::fixed::{abs, div_toward_zero, div_trunc, SCALE};

verus! {

/// Half a turn, in millionths of a radian.
pub const PI: i64 = 3_141_593;

/// A full turn, in millionths of a radian.
pub const TWO_PI: i64 = 6_283_185;

/// The number of Horner steps of the Taylor series: the last term is of
/// degree 16 for the cosine and 17 for the sine.
pub const TERMS: i64 = 8;

/// The angle `a` brought into `(-PI, PI]` by whole turns.
pub open spec fn reduce_angle(a: int) -> int {
    let m = a % (TWO_PI as int);
    if m > PI {
        m - TWO_PI
    } else {
        m
    }
}

/// The Taylor series of the cosine (`odd == 0`) or of the sine divided by
/// its argument (`odd == 1`), evaluated from step `k` on by Horner's rule at
/// `x2`, the square of the argument, in fixed point.
pub open spec fn series(x2: int, k: int, odd: int) -> int
    decreases TERMS + 1 - k,
{
    if k > TERMS || k < 1 {
        SCALE as int
    } else {
        SCALE - div_trunc(
            x2 * series(x2, k + 1, odd),
            (2 * k) * (2 * k - 1 + 2 * odd) * SCALE,
        )
    }
}

pub open spec fn clamp_unit(v: int) -> int {
    if v > SCALE {
        SCALE as int
    } else if v < -SCALE {
        -SCALE
    } else {
        v
    }
}

pub open spec fn square_fx(r: int) -> int {
    (r * r) / (SCALE as int)
}

/// The cosine of `a` (both in fixed point), kept within `[-1, 1]`.
pub open spec fn cos_fx(a: int) -> int {
    clamp_unit(series(square_fx(reduce_angle(a)), 1, 0))
}

/// The sine of `a` (both in fixed point), kept within `[-1, 1]`.
pub open spec fn sin_fx(a: int) -> int {
    let r = reduce_angle(a);
    clamp_unit(div_trunc(r * series(square_fx(r), 1, 1), SCALE as int))
}

fn reduce(a: i64) -> (r: i64)
    ensures
        r == reduce_angle(a as int),
        -PI <= r <= PI,
{
    let t = TWO_PI as i128;
    let w = a as i128;
    let m: i128 = if w >= 0 {
        w % t
    } else {
        let n = (-w) % t;
        if n == 0 {
            0
        } else {
            t - n
        }
    };
    assert(m == (a as int) % (TWO_PI as int));
    if m > PI as i128 {
        (m - t) as i64
    } else {
        m as i64
    }
}

proof fn lemma_div_trunc_bound(a: int, b: int, q: int)
    requires
        b > 0,
        abs(a) <= q * b,
    ensures
        abs(div_trunc(a, b)) <= q,
{
    assert(abs(a) / b <= q) by (nonlinear_arith)
        requires
            b > 0,
            0 <= abs(a) <= q * b,
    ;
}

/// Runs the series from `TERMS` down to step 1.
fn eval_series(x2: i64, odd: i64) -> (r: i64)
    requires
        0 <= x2 <= 10 * SCALE,
        0 <= odd <= 1,
    ensures
        r == series(x2 as int, 1, odd as int),
        abs(r as int) <= 31 * SCALE,
{
    let s = SCALE as i128;
    let mut acc: i128 = s;
    let mut k: i64 = TERMS;
    while k > 1
        invariant
            1 <= k <= TERMS,
            0 <= x2 <= 10 * SCALE,
            0 <= odd <= 1,
            s == SCALE,
            acc == series(x2 as int, k + 1, odd as int),
            abs(acc as int) <= 6 * SCALE,
        decreases k,
    {
        assert(12 <= (2 * k) * (2 * k - 1 + 2 * odd) <= 16 * 17) by (nonlinear_arith)
            requires
                2 <= k <= TERMS,
                0 <= odd <= 1,
        ;
        let c = ((2 * k) * (2 * k - 1 + 2 * odd)) as i128;
        assert(abs(x2 * acc) <= 60 * SCALE * SCALE) by (nonlinear_arith)
            requires
                0 <= x2 <= 10 * SCALE,
                abs(acc as int) <= 6 * SCALE,
        ;
        let p = (x2 as i128) * acc;
        proof {
            assert(60 * SCALE * SCALE <= 5 * SCALE * (c * s)) by (nonlinear_arith)
                requires
                    c >= 12,
                    s == SCALE,
            ;
            lemma_div_trunc_bound(p as int, c * s, 5 * SCALE);
        }
        acc = s - div_toward_zero(p, c * s);
        k = k - 1;
    }
    assert(abs(x2 * acc) <= 60 * SCALE * SCALE) by (nonlinear_arith)
        requires
            0 <= x2 <= 10 * SCALE,
            abs(acc as int) <= 6 * SCALE,
    ;
    let p = (x2 as i128) * acc;
    proof {
        lemma_div_trunc_bound(p as int, 2 * (1 + 2 * odd) * s, 30 * SCALE);
    }
    let r = s - div_toward_zero(p, 2 * (1 + 2 * odd as i128) * s);
    r as i64
}

fn clamp(v: i64) -> (r: i64)
    ensures
        r == clamp_unit(v as int),
{
    if v > SCALE {
        SCALE
    } else if v < -SCALE {
        -SCALE
    } else {
        v
    }
}

fn square(r: i64) -> (x2: i64)
    requires
        -PI <= r <= PI,
    ensures
        x2 == square_fx(r as int),
        0 <= x2 <= 10 * SCALE,
{
    assert(0 <= r * r <= PI * PI) by (nonlinear_arith)
        requires
            -PI <= r <= PI,
    ;
    ((r as i128) * (r as i128) / (SCALE as i128)) as i64
}

/// The cosine of an angle, both in millionths.
pub fn cos_fixed(a: i64) -> (r: i64)
    ensures
        r == cos_fx(a as int),
        abs(r as int) <= SCALE,
{
    let x = reduce(a);
    clamp(eval_series(square(x), 0))
}

/// The sine of an angle, both in millionths.
pub fn sin_fixed(a: i64) -> (r: i64)
    ensures
        r == sin_fx(a as int),
        abs(r as int) <= SCALE,
{
    let x = reduce(a);
    let s = eval_series(square(x), 1);
    assert(abs(x * s) <= PI * (31 * SCALE)) by (nonlinear_arith)
        requires
            abs(x as int) <= PI,
            abs(s as int) <= 31 * SCALE,
    ;
    let v = div_toward_zero((x as i128) * (s as i128), SCALE as i128);
    clamp(v as i64)
}

} // verus!
