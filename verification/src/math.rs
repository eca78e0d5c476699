//! Integer mathematics behind the rhythm primitives.

pub mod bjorklund;
pub mod evenness;
pub mod rhythm;

use crate::math::bjorklund::{
    cached_bjorklund, tabulated, EuclideanPatternCache, InvalidRhythmParameters,
    BJORKLUND_CACHE_MAX,
};
use crate::math::rhythm::euclidean_rhythm;
use crate::sound::clock::NANOS_PER_SECOND;
use vstd::prelude::*;

verus! {

/// Builds the tables that the rhythm primitives read at audio rate, so that
/// the cost is paid once and before the first sample is asked for.
pub fn cache_maths() -> (cache: EuclideanPatternCache)
    ensures
        cache.wf(),
{
    EuclideanPatternCache::new()
}

/// Where in its second the time `t` lies, in nanoseconds. A rhythm runs
/// through once per second, also before time zero.
pub open spec fn phase(t: int) -> int {
    t % (NANOS_PER_SECOND as int)
}

/// The step of a rhythm of `steps` steps in which the time `t` lies.
pub open spec fn step_at(steps: int, t: int) -> int {
    steps * phase(t) / (NANOS_PER_SECOND as int)
}

/// How far the time `t` has come through its step, in nanoseconds of a step
/// stretched to a second.
pub open spec fn step_progress(steps: int, t: int) -> int {
    (steps * phase(t)) % (NANOS_PER_SECOND as int)
}

/// The value of the rhythm gate: nothing while the step is off, and the
/// progress through the step while it is on.
pub open spec fn gate(steps: nat, pulses: nat, t: int) -> int {
    if euclidean_rhythm(steps, pulses)[step_at(steps as int, t)] {
        step_progress(steps as int, t)
    } else {
        0
    }
}

/// The Euclidean rhythm gate at time `t`, in nanoseconds.
///
/// The rhythm `(steps, pulses)` plays once per second. The value is 0 while
/// the step of `t` is off. While it is on, the value tells how far into the
/// step `t` lies, on a scale on which a whole step counts as a second.
/// Parameters that describe no rhythm, or one that is not tabulated, come
/// back as the error.
pub fn euc(cache: &EuclideanPatternCache, steps: usize, pulses: usize, t: i64) -> (out: Result<
    i64,
    InvalidRhythmParameters,
>)
    requires
        cache.wf(),
    ensures
        out is Ok <==> tabulated(steps as int, pulses as int),
        out matches Ok(value) ==> value == gate(steps as nat, pulses as nat, t as int) && 0
            <= value < NANOS_PER_SECOND,
        out matches Err(refused) ==> refused == (InvalidRhythmParameters { steps, pulses }),
{
    if steps == 0 || steps > BJORKLUND_CACHE_MAX {
        return Err(InvalidRhythmParameters { steps, pulses });
    }
    let tmod: i64 = if t >= 0 {
        t % NANOS_PER_SECOND
    } else {
        NANOS_PER_SECOND - 1 - (-(t + 1)) % NANOS_PER_SECOND
    };
    assert(tmod == phase(t as int));
    assert(0 <= steps * tmod < steps * NANOS_PER_SECOND) by (nonlinear_arith)
        requires
            0 < steps <= 64,
            0 <= tmod < NANOS_PER_SECOND,
    ;
    let scaled: i64 = (steps as i64) * tmod;
    let index = (scaled / NANOS_PER_SECOND) as usize;
    match cached_bjorklund(cache, steps, pulses, index) {
        Ok(true) => Ok(scaled % NANOS_PER_SECOND),
        Ok(false) => Ok(0),
        Err(refused) => Err(refused),
    }
}

} // verus!
