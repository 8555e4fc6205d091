//! Fixed-point numeric kernels used by the rating updaters: an integer
//! square root and a base-ten exponential, from which the logistic expected
//! score of the Elo family is computed.
//!
//! The exponential works on exponents expressed in milli-rating-points over
//! the Elo divisor of 400: `pow10_milli(d)` approximates
//! `FRAC_SCALE * 10^(d / 400_000)`, with the exponent clamped at four (a
//! difference of 1600 rating points, beyond which the expected score has
//! already rounded to zero per-mille).

use vstd::prelude::*;

verus! {

use vstd::arithmetic::div_mod::{
    lemma_div_is_ordered, lemma_div_is_ordered_by_denominator, lemma_div_multiples_vanish,
    lemma_div_pos_is_pos,
};

/// Scale of the fractional exponential: 2^20.
pub const FRAC_SCALE: u64 = 1048576;

/// Linear coefficient of `10^(l/400_000)` over a 16384-wide cell,
/// scaled by 2^16: `round(2^16 * FRAC_SCALE * ln(10) / 400_000)`.
pub const POW_LIN: u64 = 395581;

/// Quadratic coefficient of the same expansion, scaled by 2^30:
/// `round(2^30 * FRAC_SCALE * (ln(10) / 400_000)^2 / 2)`.
pub const POW_QUAD: u64 = 18654;

/// Exponent cap handed to `pow10_milli`: 1600 rating points.
pub const POW_ARG_MAX: u64 = 1_600_000;

/// The integer square root as a mathematical function: the unique
/// non-negative `r` with `r * r <= x < (r + 1) * (r + 1)`.
pub open spec fn sqrt_spec(x: int) -> int {
    choose|r: int| 0 <= r && #[trigger] (r * r) <= x && (r + 1) * (r + 1) > x
}

/// Any two integer square roots of the same value coincide, so `sqrt_spec`
/// names the one root that `isqrt` computes.
pub proof fn lemma_sqrt_unique(x: int, r1: int, r2: int)
    requires
        0 <= r1,
        0 <= r2,
        r1 * r1 <= x,
        (r1 + 1) * (r1 + 1) > x,
        r2 * r2 <= x,
        (r2 + 1) * (r2 + 1) > x,
    ensures
        r1 == r2,
{
    assert(r1 == r2) by (nonlinear_arith)
        requires
            0 <= r1,
            0 <= r2,
            r1 * r1 <= x,
            (r1 + 1) * (r1 + 1) > x,
            r2 * r2 <= x,
            (r2 + 1) * (r2 + 1) > x;
}

/// Integer square root: the largest `r` with `r * r <= x`.
pub fn isqrt(x: u64) -> (r: u64)
    ensures
        r * r <= x,
        (r + 1) * (r + 1) > x,
        r == sqrt_spec(x as int),
{
    let mut lo: u64 = 0;
    let mut hi: u64 = 0xFFFF_FFFF;
    while lo < hi
        invariant
            lo <= hi,
            hi <= 0xFFFF_FFFF,
            lo * lo <= x,
            (hi + 1) * (hi + 1) > x,
        decreases hi - lo,
    {
        let mid: u64 = lo + (hi - lo + 1) / 2;
        assert(mid <= 0xFFFF_FFFF);
        assert(mid * mid <= 0xFFFF_FFFF * 0xFFFF_FFFF) by (nonlinear_arith)
            requires mid <= 0xFFFF_FFFF;
        if mid * mid <= x {
            lo = mid;
        } else {
            hi = mid - 1;
        }
    }
    proof {
        assert(0 <= lo as int && lo * lo <= x as int && (lo + 1) * (lo + 1) > x as int);
        let w = sqrt_spec(x as int);
        assert(0 <= w && w * w <= x as int && (w + 1) * (w + 1) > x as int) by {
            assert(exists|r: int|
                0 <= r && #[trigger] (r * r) <= x as int && (r + 1) * (r + 1) > x as int) by {
                assert(0 <= lo as int && (lo as int) * (lo as int) <= x as int
                    && (lo as int + 1) * (lo as int + 1) > x as int);
            }
        }
        lemma_sqrt_unique(x as int, lo as int, w);
    }
    lo
}

/// `round(FRAC_SCALE * 10^(h * 16384 / 400_000))` for each table cell.
pub open spec fn pow10_cell_spec(h: int) -> u64 {
    if h == 0 { 1048576u64 }
    else if h == 1 { 1152285u64 }
    else if h == 2 { 1266251u64 }
    else if h == 3 { 1391489u64 }
    else if h == 4 { 1529114u64 }
    else if h == 5 { 1680351u64 }
    else if h == 6 { 1846545u64 }
    else if h == 7 { 2029177u64 }
    else if h == 8 { 2229872u64 }
    else if h == 9 { 2450417u64 }
    else if h == 10 { 2692774u64 }
    else if h == 11 { 2959102u64 }
    else if h == 12 { 3251771u64 }
    else if h == 13 { 3573386u64 }
    else if h == 14 { 3926810u64 }
    else if h == 15 { 4315190u64 }
    else if h == 16 { 4741982u64 }
    else if h == 17 { 5210986u64 }
    else if h == 18 { 5726377u64 }
    else if h == 19 { 6292742u64 }
    else if h == 20 { 6915123u64 }
    else if h == 21 { 7599061u64 }
    else if h == 22 { 8350643u64 }
    else if h == 23 { 9176560u64 }
    else { 10084164u64 }
}

fn pow10_cell(h: u64) -> (r: u64)
    requires
        h < 25,
    ensures
        r == pow10_cell_spec(h as int),
{
    match h {
        0 => 1048576,
        1 => 1152285,
        2 => 1266251,
        3 => 1391489,
        4 => 1529114,
        5 => 1680351,
        6 => 1846545,
        7 => 2029177,
        8 => 2229872,
        9 => 2450417,
        10 => 2692774,
        11 => 2959102,
        12 => 3251771,
        13 => 3573386,
        14 => 3926810,
        15 => 4315190,
        16 => 4741982,
        17 => 5210986,
        18 => 5726377,
        19 => 6292742,
        20 => 6915123,
        21 => 7599061,
        22 => 8350643,
        23 => 9176560,
        _ => 10084164,
    }
}

/// `10^q` for the integer part of the exponent, `q <= 4`.
pub open spec fn ten_pow_spec(q: int) -> u64 {
    if q == 0 { 1u64 }
    else if q == 1 { 10u64 }
    else if q == 2 { 100u64 }
    else if q == 3 { 1000u64 }
    else { 10000u64 }
}

/// The quadratic refinement of the exponential inside one table cell,
/// `l < 16384`: `FRAC_SCALE * 10^(l / 400_000)` to within a few parts in
/// a million.
pub open spec fn pow10_frac_spec(l: int) -> int {
    FRAC_SCALE + (l * POW_LIN) / 65536 + ((l * l) * POW_QUAD) / 1073741824
}

proof fn lemma_pow10_frac_bounds(l: int)
    requires
        0 <= l < 16384,
    ensures
        FRAC_SCALE <= pow10_frac_spec(l) <= 1_160_000,
{
    assert(0 <= l * POW_LIN <= 16383 * 395581) by (nonlinear_arith)
        requires 0 <= l < 16384;
    assert(0 <= (l * l) * POW_QUAD <= (16383 * 16383) * 18654) by (nonlinear_arith)
        requires 0 <= l < 16384;
    lemma_div_is_ordered(0, l * POW_LIN, 65536);
    lemma_div_is_ordered(0, (l * l) * POW_QUAD, 1073741824);
    lemma_div_is_ordered(l * POW_LIN, (16383 * 395581) as int, 65536);
    lemma_div_is_ordered((l * l) * POW_QUAD, ((16383 * 16383) * 18654) as int, 1073741824);
}

/// `FRAC_SCALE * 10^(d / 400_000)`, the exponent clamped at `POW_ARG_MAX`.
pub open spec fn pow10_milli_spec(d: u64) -> int {
    let dc = if d <= POW_ARG_MAX { d as int } else { POW_ARG_MAX as int };
    let q = dc / 400_000;
    let r = dc % 400_000;
    let h = r / 16384;
    let l = r % 16384;
    ((pow10_cell_spec(h) * pow10_frac_spec(l)) / (FRAC_SCALE as int)) * ten_pow_spec(q)
}

/// `pow10_milli_spec` stays between its scale and an upper bound that every
/// caller's arithmetic fits under.
pub proof fn lemma_pow10_milli_bounds(d: u64)
    ensures
        FRAC_SCALE <= pow10_milli_spec(d) <= 120_000_000_000,
{
    let dc = if d <= POW_ARG_MAX { d as int } else { POW_ARG_MAX as int };
    let q = dc / 400_000;
    let r = dc % 400_000;
    let h = r / 16384;
    let l = r % 16384;
    assert(0 <= r < 400_000);
    assert(0 <= l < 16384);
    assert(0 <= h < 25);
    assert(0 <= q <= 4);
    lemma_pow10_frac_bounds(l);
    let cell = pow10_cell_spec(h) as int;
    let frac = pow10_frac_spec(l);
    assert(1048576 <= cell <= 10084164);
    assert(1048576 * 1048576 <= cell * frac <= 10084164 * 1_160_000) by (nonlinear_arith)
        requires 1048576 <= cell <= 10084164, 1048576 <= frac <= 1_160_000;
    let scaled = (cell * frac) / (FRAC_SCALE as int);
    lemma_div_is_ordered((1048576 * 1048576) as int, cell * frac, FRAC_SCALE as int);
    lemma_div_is_ordered(cell * frac, (10084164 * 1_160_000) as int, FRAC_SCALE as int);
    lemma_div_multiples_vanish(1048576, FRAC_SCALE as int);
    assert(((1048576 * 1048576) as int) / (FRAC_SCALE as int) == 1048576);
    assert(((10084164 * 1_160_000) as int) / (FRAC_SCALE as int) <= 11_200_000);
    assert(FRAC_SCALE <= scaled <= 11_200_000);
    assert(1 <= ten_pow_spec(q) <= 10000);
    assert(FRAC_SCALE * 1 <= scaled * ten_pow_spec(q) <= 11_200_000 * 10000) by (nonlinear_arith)
        requires FRAC_SCALE <= scaled <= 11_200_000, 1 <= ten_pow_spec(q) <= 10000;
}

/// Fixed-point `FRAC_SCALE * 10^(d / 400_000)` with the exponent clamped at
/// `POW_ARG_MAX`; `d` is in milli-rating-points.
pub fn pow10_milli(d: u64) -> (p: u64)
    ensures
        p == pow10_milli_spec(d),
        FRAC_SCALE <= p <= 120_000_000_000u64,
{
    proof {
        lemma_pow10_milli_bounds(d);
    }
    let dc: u64 = if d <= POW_ARG_MAX { d } else { POW_ARG_MAX };
    let q: u64 = dc / 400_000;
    let r: u64 = dc % 400_000;
    let h: u64 = r / 16384;
    let l: u64 = r % 16384;
    assert(h < 25 && l < 16384 && q <= 4);
    let cell: u64 = pow10_cell(h);
    proof {
        lemma_pow10_frac_bounds(l as int);
        assert(l * POW_LIN <= 16383 * 395581) by (nonlinear_arith)
            requires l < 16384;
        assert((l * l) * POW_QUAD <= (16383 * 16383) * 18654) by (nonlinear_arith)
            requires l < 16384;
    }
    let lin: u64 = (l * POW_LIN) / 65536;
    let quad: u64 = ((l * l) * POW_QUAD) / 1073741824;
    let frac: u64 = FRAC_SCALE + lin + quad;
    assert(frac as int == pow10_frac_spec(l as int));
    assert(frac <= 1_160_000);
    proof {
        assert(cell * frac <= 10084164 * 1_160_000) by (nonlinear_arith)
            requires cell <= 10084164, frac <= 1_160_000;
    }
    let scaled: u64 = (cell * frac) / FRAC_SCALE;
    proof {
        lemma_div_is_ordered((cell * frac) as int, (10084164 * 1_160_000) as int, FRAC_SCALE as int);
        assert(scaled <= 11_200_000);
    }
    let tp: u64 = match q {
        0 => 1,
        1 => 10,
        2 => 100,
        3 => 1000,
        _ => 10000,
    };
    assert(tp == ten_pow_spec(q as int));
    proof {
        assert(scaled * tp <= 11_200_000 * 10000) by (nonlinear_arith)
            requires scaled <= 11_200_000, tp <= 10000;
    }
    scaled * tp
}

/// The expected score of a player rated `a` against one rated `b`, in
/// per-mille: the fixed-point counterpart of `1 / (1 + 10^((b - a) / 400))`.
/// Ratings are in milli-points.
pub open spec fn expected_score_spec(a: u64, b: u64) -> int {
    if b >= a {
        expected_low_spec((b - a) as u64)
    } else {
        1000 - expected_low_spec((a - b) as u64)
    }
}

/// The low half of the logistic curve: the expected score against an
/// opponent rated `d` milli-points higher, at most 500 per-mille.
pub open spec fn expected_low_spec(d: u64) -> int {
    (1000 * FRAC_SCALE) / (FRAC_SCALE + pow10_milli_spec(d))
}

fn expected_low(d: u64) -> (e: u64)
    ensures
        e == expected_low_spec(d),
        e <= 500,
{
    proof {
        lemma_expected_low_bounds(d);
    }
    let p: u64 = pow10_milli(d);
    (1000 * FRAC_SCALE) / (FRAC_SCALE + p)
}

/// The expected score in per-mille of `a` against `b` (both in
/// milli-points): exactly 500 for equal ratings, and the two directions of
/// any pairing always sum to 1000.
pub fn expected_score(a: u64, b: u64) -> (e: u64)
    ensures
        e == expected_score_spec(a, b),
        e <= 1000,
        a == b ==> e == 500,
{
    if b >= a {
        let e = expected_low(b - a);
        proof {
            if a == b {
                lemma_expected_low_zero();
            }
        }
        e
    } else {
        let low = expected_low(a - b);
        1000 - low
    }
}

/// At a zero rating difference the expected score is exactly one half.
pub proof fn lemma_expected_low_zero()
    ensures
        expected_low_spec(0) == 500,
{
    lemma_div_multiples_vanish(1048576, FRAC_SCALE as int);
    assert(((1048576 * 1048576) as int) / (FRAC_SCALE as int) == 1048576);
    assert(pow10_frac_spec(0) == FRAC_SCALE as int);
    assert(pow10_cell_spec(0) == FRAC_SCALE);
    assert(pow10_cell_spec(0) * pow10_frac_spec(0) == (1048576 * 1048576) as int);
    assert((pow10_cell_spec(0) * pow10_frac_spec(0)) / (FRAC_SCALE as int) == 1048576);
    assert(ten_pow_spec(0) == 1);
    assert(pow10_milli_spec(0) == FRAC_SCALE);
    lemma_div_multiples_vanish(500, (2 * FRAC_SCALE) as int);
    assert((1000 * FRAC_SCALE) as int == ((2 * FRAC_SCALE) as int) * 500);
    assert((1000 * FRAC_SCALE) as int / (FRAC_SCALE + FRAC_SCALE as int) == 500);
}

/// The two directions of a pairing sum to exactly 1000 per-mille: what one
/// side is expected to gain the other is expected to concede.
pub proof fn lemma_expected_score_antisymmetric(a: u64, b: u64)
    ensures
        expected_score_spec(a, b) + expected_score_spec(b, a) == 1000,
{
    if a == b {
        lemma_expected_low_zero();
    }
}

/// The expected score always lies between 0 and 1000 per-mille.
pub proof fn lemma_expected_score_bounds(a: u64, b: u64)
    ensures
        0 <= expected_score_spec(a, b) <= 1000,
{
    lemma_expected_low_bounds(if b >= a { (b - a) as u64 } else { (a - b) as u64 });
}

proof fn lemma_expected_low_bounds(d: u64)
    ensures
        0 <= expected_low_spec(d) <= 500,
{
    lemma_pow10_milli_bounds(d);
    lemma_div_is_ordered_by_denominator(
        (1000 * FRAC_SCALE) as int,
        (2 * FRAC_SCALE) as int,
        FRAC_SCALE + pow10_milli_spec(d),
    );
    lemma_div_pos_is_pos((1000 * FRAC_SCALE) as int, FRAC_SCALE + pow10_milli_spec(d));
    lemma_div_multiples_vanish(500, (2 * FRAC_SCALE) as int);
    assert((1000 * FRAC_SCALE) as int == ((2 * FRAC_SCALE) as int) * 500);
    assert((1000 * FRAC_SCALE) as int / (2 * FRAC_SCALE) as int == 500);
}

} // verus!
