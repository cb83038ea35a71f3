//! Scoring formulas over fixed-point quantities.
use vstd::prelude::*;

use crate::fixed::{clamp_i64, fx_mul, mul_spec, saturate, SCALE};
use crate::model::RelationType;

verus! {

/// Fixed-point factor applied per positive feedback edge (1.5).
pub const POSITIVE_FEEDBACK_FACTOR: i64 = 1_500_000;

/// Fixed-point factor applied per negative feedback edge (0.7).
pub const NEGATIVE_FEEDBACK_FACTOR: i64 = 700_000;

/// Largest deviation from 1.0 that still counts as undistorted (0.05).
pub const DISTORTION_TOLERANCE: i64 = 50_000;

/// Stands for an unbounded distortion coefficient.
pub const DISTORTION_INFINITY: i64 = 9_223_372_036_854_775_807;

/// One step of the feedback fold: positive feedback amplifies, negative damps,
/// other relations are neutral.
pub open spec fn feedback_step(m: int, t: RelationType) -> int {
    match t {
        RelationType::PositiveFeedback => mul_spec(m, POSITIVE_FEEDBACK_FACTOR as int),
        RelationType::NegativeFeedback => mul_spec(m, NEGATIVE_FEEDBACK_FACTOR as int),
        _ => m,
    }
}

/// The multiplier `m` folded left to right over every relation type of `ts`.
pub open spec fn feedback_from(m: int, ts: Seq<RelationType>) -> int
    decreases ts.len(),
{
    if ts.len() == 0 {
        m
    } else {
        feedback_step(feedback_from(m, ts.drop_last()), ts.last())
    }
}

/// The feedback multiplier of a sequence of relation types, starting from 1.0.
pub open spec fn feedback_multiplier_spec(ts: Seq<RelationType>) -> int {
    feedback_from(SCALE as int, ts)
}

/// Control leverage: power times influence times certainty.
pub open spec fn leverage_spec(power: int, influence: int, certainty: int) -> int {
    mul_spec(mul_spec(power, influence), certainty)
}

/// Absolute value of an integer.
pub open spec fn abs(x: int) -> int {
    if x < 0 {
        -x
    } else {
        x
    }
}

/// Quotient rounded toward zero, for any nonzero divisor.
pub open spec fn quot_trunc(a: int, d: int) -> int {
    if (a < 0) == (d < 0) {
        abs(a) / abs(d)
    } else {
        -(abs(a) / abs(d))
    }
}

/// The distortion coefficient `i_in / i_real`.
pub open spec fn distortion_spec(i_in: int, i_real: int) -> int {
    if i_real == 0 {
        if i_in == 0 {
            SCALE as int
        } else {
            DISTORTION_INFINITY as int
        }
    } else {
        finite_clamp(quot_trunc(i_in * SCALE, i_real))
    }
}

/// Clamps a finite coefficient into the range of `i64`, one below
/// `DISTORTION_INFINITY`, so that only a zero `i_real` yields infinity.
pub open spec fn finite_clamp(x: int) -> int {
    if x >= DISTORTION_INFINITY {
        DISTORTION_INFINITY - 1
    } else {
        clamp_i64(x)
    }
}

/// Whether a coefficient lies outside the tolerance band around 1.0.
pub open spec fn is_distorted_spec(z: int) -> bool {
    abs(z - SCALE) > DISTORTION_TOLERANCE
}

/// The label of a coefficient: neutral, propaganda (above the band) or suppression.
pub open spec fn distortion_label(z: int) -> Seq<char> {
    if !is_distorted_spec(z) {
        "neutral"@
    } else if z > SCALE {
        "propaganda"@
    } else {
        "suppression"@
    }
}

/// Folds the feedback factors of all relation types, starting from 1.0.
pub fn calculate_feedback_multiplier(feedback_types: &[RelationType]) -> (r: i64)
    ensures
        r as int == feedback_multiplier_spec(feedback_types@),
{
    continue_feedback(SCALE, feedback_types)
}

/// Folds the feedback factors of all relation types, starting from `start`.
pub fn continue_feedback(start: i64, feedback_types: &[RelationType]) -> (r: i64)
    ensures
        r as int == feedback_from(start as int, feedback_types@),
{
    let mut multiplier: i64 = start;
    let mut i: usize = 0;
    while i < feedback_types.len()
        invariant
            i <= feedback_types@.len(),
            multiplier as int == feedback_from(start as int, feedback_types@.subrange(0, i as int)),
        decreases feedback_types@.len() - i,
    {
        proof {
            assert(feedback_types@.subrange(0, i + 1).drop_last() =~= feedback_types@.subrange(0, i as int));
        }
        match feedback_types[i] {
            RelationType::PositiveFeedback => {
                multiplier = fx_mul(multiplier, POSITIVE_FEEDBACK_FACTOR);
            },
            RelationType::NegativeFeedback => {
                multiplier = fx_mul(multiplier, NEGATIVE_FEEDBACK_FACTOR);
            },
            _ => {},
        }
        i = i + 1;
    }
    assert(feedback_types@.subrange(0, i as int) =~= feedback_types@);
    multiplier
}

/// Control leverage `available_power * influence_strength * certainty_score`.
pub fn calculate_control_leverage(
    available_power: i64,
    influence_strength: i64,
    certainty_score: i64,
) -> (r: i64)
    ensures
        r as int == leverage_spec(
            available_power as int,
            influence_strength as int,
            certainty_score as int,
        ),
{
    fx_mul(fx_mul(available_power, influence_strength), certainty_score)
}

/// Total power of a system: the product `v * a * c`.
pub fn calculate_total_power(v: i64, a: i64, c: i64) -> (r: i64)
    ensures
        r as int == mul_spec(mul_spec(v as int, a as int), c as int),
{
    fx_mul(fx_mul(v, a), c)
}

/// Axiological integrity `1 - |v1 - v2| / 2` of two intent values.
pub fn calculate_axiological_integrity(v1: i64, v2: i64) -> (r: i64)
    ensures
        r as int == SCALE - abs(v1 - v2) / 2,
{
    let d: i128 = (v1 as i128) - (v2 as i128);
    let m: i128 = if d < 0 { -d } else { d };
    let h: i128 = m / 2;
    ((SCALE as i128) - h) as i64
}

/// The distortion coefficient `i_in / i_real`: 1.0 when both are zero, and
/// `DISTORTION_INFINITY` when only `i_real` is.
pub fn calculate_distortion(i_in: i64, i_real: i64) -> (r: i64)
    ensures
        r as int == distortion_spec(i_in as int, i_real as int),
{
    if i_real == 0 {
        if i_in == 0 {
            SCALE
        } else {
            DISTORTION_INFINITY
        }
    } else {
        assert(-0x8000_0000_0000_0000 * 1_000_000 <= i_in * 1_000_000 <= 0x8000_0000_0000_0000
            * 1_000_000) by (nonlinear_arith)
            requires
                -0x8000_0000_0000_0000 <= i_in <= 0x8000_0000_0000_0000,
        ;
        let n: i128 = (i_in as i128) * (SCALE as i128);
        let d: i128 = i_real as i128;
        let na: i128 = if n < 0 { -n } else { n };
        let da: i128 = if d < 0 { -d } else { d };
        let q: i128 = na / da;
        let z = if (n < 0) == (d < 0) {
            saturate(q)
        } else {
            saturate(-q)
        };
        if z == DISTORTION_INFINITY {
            DISTORTION_INFINITY - 1
        } else {
            z
        }
    }
}

/// A distortion coefficient with its classification.
pub struct DistortionAnalysis {
    pub distortion_coefficient: i64,
    pub is_distorted: bool,
    pub distortion_type: String,
}

impl DistortionAnalysis {
    /// The classification: `neutral`, `propaganda` or `suppression`.
    pub fn distortion_type(&self) -> (r: String)
        ensures
            r@ == self.distortion_type@,
    {
        self.distortion_type.clone()
    }
}

/// Computes the distortion coefficient and classifies it with a 5% tolerance band.
pub fn analyze_distortion(i_in: i64, i_real: i64) -> (r: DistortionAnalysis)
    ensures
        r.distortion_coefficient as int == distortion_spec(i_in as int, i_real as int),
        r.is_distorted == is_distorted_spec(r.distortion_coefficient as int),
        r.distortion_type@ == distortion_label(r.distortion_coefficient as int),
{
    let z = calculate_distortion(i_in, i_real);
    let dev: i128 = (z as i128) - (SCALE as i128);
    let is_distorted = (if dev < 0 { -dev } else { dev }) > DISTORTION_TOLERANCE as i128;
    let distortion_type = if !is_distorted {
        "neutral".to_owned()
    } else if z > SCALE {
        "propaganda".to_owned()
    } else {
        "suppression".to_owned()
    };
    DistortionAnalysis { distortion_coefficient: z, is_distorted, distortion_type }
}

} // verus!
