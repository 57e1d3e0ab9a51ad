use vstd::prelude::*;

use vstd::arithmetic::div_mod::{
    lemma_div_is_ordered, lemma_div_pos_is_pos, lemma_fundamental_div_mod,
};

verus! {

/// Number of fixed-point steps per energy/intensity unit: values are held
/// in micro-units, so `1.0` is stored as `SCALE`.
pub const SCALE: i64 = 1_000_000;

/// Half of `SCALE`, used for rounding half away from zero.
pub const HALF_SCALE: i64 = 500_000;

/// Largest magnitude (in fixed-point steps) a parsed input field may have:
/// one million units. Larger fields are rejected by the line parser, which
/// keeps every later arithmetic stage free of overflow.
pub const MAX_FIELD: i64 = 1_000_000_000_000;

/// Largest magnitude an absorption ratio can reach: `MAX_FIELD` divided by
/// the smallest non-zero intensity (one fixed-point step), rescaled.
pub const MU_MAX: i64 = 1_000_000_000_000_000_000;

/// Magnitude of an integer.
pub open spec fn abs_of(x: int) -> int {
    if x >= 0 {
        x
    } else {
        -x
    }
}

/// `x` rounded to the nearest whole unit (multiple of `SCALE`), halves
/// rounding away from zero.
pub open spec fn round_unit(x: int) -> int {
    if x >= 0 {
        ((x + HALF_SCALE) / (SCALE as int)) * SCALE
    } else {
        -((((-x) + HALF_SCALE) / (SCALE as int)) * SCALE)
    }
}

/// Fixed-point quotient `t / i`, magnitude truncated toward zero.
pub open spec fn ratio_spec(t: int, i: int) -> int {
    let m = (abs_of(t) * SCALE) / abs_of(i);
    if (t < 0) != (i < 0) {
        -m
    } else {
        m
    }
}

/// Rounding to whole units never moves a value by more than half a unit,
/// and it is monotone.
pub proof fn lemma_round_unit_bounds(x: int)
    ensures
        abs_of(round_unit(x)) <= abs_of(x) + HALF_SCALE,
        round_unit(-x) == -round_unit(x),
    decreases (if x >= 0 {
        0int
    } else {
        1int
    }),
{
    if x >= 0 {
        let q = (x + HALF_SCALE) / (SCALE as int);
        lemma_div_pos_is_pos(x + HALF_SCALE, SCALE as int);
        lemma_fundamental_div_mod(x + HALF_SCALE, SCALE as int);
        assert(q * SCALE <= x + HALF_SCALE);
        if x == 0 {
            assert(round_unit(-x) == -round_unit(x));
        }
    } else {
        lemma_round_unit_bounds(-x);
    }
}

/// Monotonicity of `round_unit`.
pub proof fn lemma_round_unit_monotone(x: int, y: int)
    requires
        x <= y,
    ensures
        round_unit(x) <= round_unit(y),
{
    if x >= 0 {
        lemma_div_is_ordered(x + HALF_SCALE, y + HALF_SCALE, SCALE as int);
    } else if y < 0 {
        lemma_div_is_ordered((-y) + HALF_SCALE, (-x) + HALF_SCALE, SCALE as int);
    } else {
        lemma_div_pos_is_pos((-x) + HALF_SCALE, SCALE as int);
        lemma_div_pos_is_pos(y + HALF_SCALE, SCALE as int);
    }
}

/// Rounds a fixed-point value to the nearest whole unit, halves away from
/// zero.
pub fn round_energy(x: i64) -> (r: i64)
    requires
        abs_of(x as int) <= MAX_FIELD,
    ensures
        r == round_unit(x as int),
        abs_of(r as int) <= MAX_FIELD + SCALE,
        r % SCALE == 0,
{
    proof {
        lemma_round_unit_bounds(x as int);
    }
    if x >= 0 {
        let m: u64 = (x as u64 + HALF_SCALE as u64) / (SCALE as u64);
        let r: i64 = (m as i64) * SCALE;
        proof {
            lemma_div_pos_is_pos(x + HALF_SCALE, SCALE as int);
            lemma_div_is_ordered(x + HALF_SCALE, MAX_FIELD + HALF_SCALE, SCALE as int);
            assert((MAX_FIELD + HALF_SCALE) / (SCALE as int) * SCALE <= MAX_FIELD + SCALE) by {
                lemma_fundamental_div_mod(MAX_FIELD + HALF_SCALE, SCALE as int);
            }
            assert(m * SCALE <= (MAX_FIELD + HALF_SCALE) / (SCALE as int) * SCALE);
        }
        r
    } else {
        let neg: u64 = ((-x) as u64 + HALF_SCALE as u64) / (SCALE as u64);
        let r: i64 = -((neg as i64) * SCALE);
        proof {
            lemma_div_pos_is_pos((-x) + HALF_SCALE, SCALE as int);
            lemma_div_is_ordered((-x) + HALF_SCALE, MAX_FIELD + HALF_SCALE, SCALE as int);
            assert((MAX_FIELD + HALF_SCALE) / (SCALE as int) * SCALE <= MAX_FIELD + SCALE) by {
                lemma_fundamental_div_mod(MAX_FIELD + HALF_SCALE, SCALE as int);
            }
            assert(neg * SCALE <= (MAX_FIELD + HALF_SCALE) / (SCALE as int) * SCALE);
        }
        r
    }
}

/// Fixed-point division `t / i`: the absorption ratio of one sample.
/// The magnitude of the quotient is truncated toward zero and the sign is
/// that of the exact quotient.
pub fn ratio_scaled(t: i64, i: i64) -> (r: i64)
    requires
        i != 0,
        abs_of(t as int) <= MAX_FIELD,
        abs_of(i as int) <= MAX_FIELD,
    ensures
        r == ratio_spec(t as int, i as int),
        abs_of(r as int) <= MU_MAX,
{
    let ta: u64 = if t >= 0 {
        t as u64
    } else {
        (-t) as u64
    };
    let ia: u64 = if i >= 0 {
        i as u64
    } else {
        (-i) as u64
    };
    let m: u128 = (ta as u128 * SCALE as u128) / (ia as u128);
    proof {
        lemma_div_pos_is_pos(ta as int * SCALE, ia as int);
        lemma_div_is_ordered_one(ta as int * SCALE, ia as int);
    }
    if (t < 0) != (i < 0) {
        -(m as i64)
    } else {
        m as i64
    }
}

/// A quotient by a positive divisor is at most the dividend.
proof fn lemma_div_is_ordered_one(x: int, d: int)
    requires
        0 <= x,
        1 <= d,
    ensures
        x / d <= x,
{
    vstd::arithmetic::div_mod::lemma_div_nonincreasing(x, d);
}

} // verus!
