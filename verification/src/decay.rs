//! The urgency reward: an exponential decay over whole minutes of remaining
//! time, computed in fixed-point integer arithmetic.
//!
//! A completion that lands `t` minutes before the day's deadline is worth
//! `round(500 * (1 - 1/200)^t)` points, evaluated with the decay factor
//! carried as billionths and cut down by `* 995 / 1000` once per minute, so
//! the reward is largest near the deadline and fades to nothing roughly a
//! day out.

use vstd::prelude::*;

verus! {

/// One billion: the fixed-point scale the decay factor is carried at.
pub const DECAY_SCALE: u64 = 1_000_000_000;

/// The most points a single day can award.
pub const MAX_DAY_POINTS: u64 = 500;

/// The decay factor after `t` minutes, in billionths: starts at the full
/// scale and loses half a percent (rounded down) each minute.
pub open spec fn decay_frac(t: nat) -> nat
    decreases t,
{
    if t == 0 {
        1_000_000_000
    } else {
        decay_frac((t - 1) as nat) * 995 / 1000
    }
}

/// Points for a completion `t` whole minutes before the deadline:
/// `500 * decay_frac(t)`, scaled back down and rounded to nearest.
pub open spec fn spec_combative_points(t: int) -> int {
    if t < 0 {
        0
    } else {
        (500 * (decay_frac(t as nat) as int) + 500_000_000) / 1_000_000_000
    }
}

pub proof fn lemma_decay_frac_le_scale(t: nat)
    ensures
        decay_frac(t) <= 1_000_000_000,
    decreases t,
{
    if t > 0 {
        lemma_decay_frac_le_scale((t - 1) as nat);
        assert(decay_frac((t - 1) as nat) * 995 / 1000 <= decay_frac((t - 1) as nat))
            by (nonlinear_arith);
    }
}

pub proof fn lemma_decay_frac_step_le(t: nat)
    ensures
        decay_frac(t + 1) <= decay_frac(t),
{
    assert(decay_frac(t) * 995 / 1000 <= decay_frac(t)) by (nonlinear_arith);
}

pub proof fn lemma_decay_frac_monotone(a: nat, b: nat)
    requires
        a <= b,
    ensures
        decay_frac(b) <= decay_frac(a),
    decreases b - a,
{
    if a < b {
        lemma_decay_frac_monotone(a, (b - 1) as nat);
        lemma_decay_frac_step_le((b - 1) as nat);
    }
}

/// The reward is an integer between 0 and the daily maximum, for every
/// remaining time.
pub proof fn lemma_combative_points_range(t: int)
    ensures
        0 <= spec_combative_points(t) <= 500,
{
    if t >= 0 {
        lemma_decay_frac_le_scale(t as nat);
        assert((500 * decay_frac(t as nat) + 500_000_000) / 1_000_000_000 <= 500) by {
            assert(500 * decay_frac(t as nat) <= 500 * 1_000_000_000) by (nonlinear_arith)
                requires decay_frac(t as nat) <= 1_000_000_000;
        }
    }
}

/// Points awarded for a completion `minutes` whole minutes before the
/// deadline.
pub fn combative_points(minutes: u64) -> (r: u64)
    ensures
        r == spec_combative_points(minutes as int),
        r <= 500,
{
    proof {
        lemma_combative_points_range(minutes as int);
    }
    let mut frac: u64 = DECAY_SCALE;
    let mut i: u64 = 0;
    while i < minutes && frac > 0
        invariant
            0 <= i <= minutes,
            frac == decay_frac(i as nat),
            frac <= 1_000_000_000,
        decreases minutes - i,
    {
        frac = frac * 995 / 1000;
        i += 1;
        proof {
            lemma_decay_frac_le_scale(i as nat);
        }
    }
    proof {
        // Once the factor bottoms out at zero it stays there, so the loop
        // may stop early without changing the rounded result.
        lemma_decay_frac_monotone(i as nat, minutes as nat);
    }
    (500 * frac + 500_000_000) / 1_000_000_000
}

} // verus!
