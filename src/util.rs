//! Exact conversions between MIDI ticks, chart steps and milliseconds.
use vstd::prelude::*;

verus! {

/// A non-negative rational number `num / den`.
///
/// Chart times are kept exact: a tick count converts to steps and to
/// milliseconds by multiplications and one final division, which is left to
/// the consumer of the value.
#[derive(Clone, Copy, Debug, PartialEq, Eq, Structural)]
pub struct Fraction {
    pub num: u128,
    pub den: u128,
}

/// Steps per beat of the chart grid.
pub const STEPS_PER_BEAT: u128 = 4;

/// Milliseconds per minute.
pub const MILLIS_PER_MINUTE: u128 = 60000;

/// `ticks` ticks, at `ticks_per_beat` ticks per beat, as a number of steps
/// (four steps per beat).
pub fn ticks_to_steps(ticks: u128, ticks_per_beat: u16) -> (r: Fraction)
    requires
        ticks * 4 <= u128::MAX,
    ensures
        r.num == ticks * 4,
        r.den == ticks_per_beat,
{
    Fraction { num: ticks * STEPS_PER_BEAT, den: ticks_per_beat as u128 }
}

/// `steps` steps as milliseconds at `bpm` beats per minute: a beat lasts
/// `60000 / bpm` ms, a step a quarter of that.
pub fn steps_to_millis(steps: Fraction, bpm: u16) -> (r: Fraction)
    requires
        steps.num * 60000 <= u128::MAX,
        steps.den * (4 * bpm) <= u128::MAX,
    ensures
        r.num == steps.num * 60000,
        r.den == steps.den * (4 * bpm),
{
    Fraction { num: steps.num * MILLIS_PER_MINUTE, den: steps.den * (STEPS_PER_BEAT * bpm as u128) }
}

/// `ticks` ticks as milliseconds, with `tpb` ticks per beat and `bpm` beats
/// per minute: `ticks * 4 * 60000 / (tpb * 4 * bpm)`, unreduced.
pub open spec fn millis(ticks: int, tpb: int, bpm: int) -> Fraction {
    Fraction { num: (ticks * 4 * 60000) as u128, den: (tpb * (4 * bpm)) as u128 }
}

/// `ticks` ticks as milliseconds: steps first, then milliseconds.
pub fn ticks_to_millis(ticks: u128, ticks_per_beat: u16, bpm: u16) -> (r: Fraction)
    requires
        ticks < 0x1_0000_0000_0000_0000_0000_0000,
    ensures
        r == millis(ticks as int, ticks_per_beat as int, bpm as int),
{
    assert(ticks_per_beat * (4 * bpm) <= 0x1_0000 * 0x4_0000) by (nonlinear_arith)
        requires
            ticks_per_beat < 0x1_0000,
            bpm < 0x1_0000,
    ;
    let steps = ticks_to_steps(ticks, ticks_per_beat);
    steps_to_millis(steps, bpm)
}

} // verus!
