//! Keeping the count of rendered samples in step with the playback clock.
//!
//! Times are whole nanoseconds. The audio renderer counts the samples it has
//! written; the count divided by the sample rate is the audio time. Where the
//! audio time has come too far from the elapsed playback time, the count is
//! set to the sample that lies nearest to the elapsed time. Every time and
//! every count is taken: nothing here asks anything of its caller.

use vstd::prelude::*;

verus! {

/// Nanoseconds in a second.
pub const NANOS_PER_SECOND: i64 = 1_000_000_000;

/// How far audio time and elapsed time may lie apart before the sample count
/// is corrected: a fifth of a second.
pub const TIME_DIFFERENCE_THRESHOLD: i64 = 200_000_000;

/// Samples in a second of sound.
pub const SAMPLE_RATE: u32 = 44_100;

/// The distance between the audio time of `sample_index` and `elapsed`, in
/// units of which `sample_rate * NANOS_PER_SECOND` make a second. In these
/// units both times are whole numbers, and a sample lasts `NANOS_PER_SECOND`.
pub open spec fn drift(sample_index: int, elapsed: int, sample_rate: int) -> int {
    let gap = sample_index * NANOS_PER_SECOND - elapsed * sample_rate;
    if gap < 0 {
        -gap
    } else {
        gap
    }
}

/// Audio time and elapsed time lie further apart than the threshold.
pub open spec fn out_of_step(sample_index: int, elapsed: int, sample_rate: int) -> bool {
    drift(sample_index, elapsed, sample_rate) > TIME_DIFFERENCE_THRESHOLD * sample_rate
}

/// The sample whose audio time lies nearest to `elapsed`, halves rounded up;
/// the first sample for a time before the start.
pub open spec fn nearest_sample(elapsed: int, sample_rate: int) -> int {
    if elapsed <= 0 {
        0
    } else {
        (elapsed * sample_rate + NANOS_PER_SECOND / 2) / (NANOS_PER_SECOND as int)
    }
}

/// The nearest sample, held to what a sample count can be.
pub open spec fn snapped_sample(elapsed: int, sample_rate: int) -> int {
    if nearest_sample(elapsed, sample_rate) > u64::MAX {
        u64::MAX as int
    } else {
        nearest_sample(elapsed, sample_rate)
    }
}

/// The sample count to continue from, where `sample_index` has come out of
/// step with `elapsed`.
pub open spec fn resync(sample_index: int, elapsed: int, sample_rate: int) -> Option<u64> {
    if out_of_step(sample_index, elapsed, sample_rate) {
        Some(snapped_sample(elapsed, sample_rate) as u64)
    } else {
        None
    }
}

/// Times further than this from zero are all alike: so far out that every
/// sample count is out of step with them, and that their own sample, at any
/// rate but zero, is the first or cannot be counted.
pub open spec fn far() -> int {
    0x4000_0000_0000_0000_0000_0000
}

/// A time beyond `far()`, either way, can stand in for any time further out.
proof fn lemma_far_times(sample_index: int, elapsed: int, sample_rate: int)
    requires
        0 <= sample_index <= u64::MAX,
        0 <= sample_rate <= u32::MAX,
        elapsed > far() || elapsed < -far(),
    ensures
        out_of_step(sample_index, elapsed, sample_rate) == out_of_step(
            sample_index,
            if elapsed > 0 {
                far()
            } else {
                -far()
            },
            sample_rate,
        ),
        snapped_sample(elapsed, sample_rate) == snapped_sample(
            if elapsed > 0 {
                far()
            } else {
                -far()
            },
            sample_rate,
        ),
{
    let near = if elapsed > 0 {
        far()
    } else {
        -far()
    };
    if sample_rate == 0 {
        assert(elapsed * sample_rate == 0 && near * sample_rate == 0) by (nonlinear_arith)
            requires
                sample_rate == 0,
        ;
    } else {
        lemma_far_time(sample_index, elapsed, sample_rate);
        lemma_far_time(sample_index, near, sample_rate);
    }
}

/// What holds of a time at `far()` or beyond, at a rate that is not zero.
proof fn lemma_far_time(sample_index: int, elapsed: int, sample_rate: int)
    requires
        0 <= sample_index <= u64::MAX,
        1 <= sample_rate <= u32::MAX,
        elapsed >= far() || elapsed <= -far(),
    ensures
        out_of_step(sample_index, elapsed, sample_rate),
        snapped_sample(elapsed, sample_rate) == if elapsed > 0 {
            u64::MAX as int
        } else {
            0
        },
{
    let audio = sample_index * 1_000_000_000;
    let app = elapsed * sample_rate;
    let limit = 200_000_000 * sample_rate;
    assert(audio == sample_index * NANOS_PER_SECOND);
    assert(limit == TIME_DIFFERENCE_THRESHOLD * sample_rate);
    if elapsed > 0 {
        assert(app - limit >= elapsed - 200_000_000) by (nonlinear_arith)
            requires
                app == elapsed * sample_rate,
                limit == 200_000_000 * sample_rate,
                sample_rate >= 1,
                elapsed >= 200_000_000,
        ;
        assert(app >= elapsed) by (nonlinear_arith)
            requires
                app == elapsed * sample_rate,
                sample_rate >= 1,
                elapsed >= 0,
        ;
        assert((app + 500_000_000) / 1_000_000_000 > u64::MAX);
    } else {
        assert(-app - limit >= -elapsed - 200_000_000) by (nonlinear_arith)
            requires
                app == elapsed * sample_rate,
                limit == 200_000_000 * sample_rate,
                sample_rate >= 1,
                -elapsed >= 200_000_000,
        ;
    }
}

/// A time that gives what `elapsed` gives and is not beyond `far()`.
fn within_far(sample_index: u64, elapsed: i128, sample_rate: u32) -> (near: i128)
    ensures
        -far() <= near <= far(),
        out_of_step(sample_index as int, near as int, sample_rate as int) == out_of_step(
            sample_index as int,
            elapsed as int,
            sample_rate as int,
        ),
        snapped_sample(near as int, sample_rate as int) == snapped_sample(
            elapsed as int,
            sample_rate as int,
        ),
{
    if elapsed > 0x4000_0000_0000_0000_0000_0000 {
        proof {
            lemma_far_times(sample_index as int, elapsed as int, sample_rate as int);
        }
        0x4000_0000_0000_0000_0000_0000
    } else if elapsed < -0x4000_0000_0000_0000_0000_0000 {
        proof {
            lemma_far_times(sample_index as int, elapsed as int, sample_rate as int);
        }
        -0x4000_0000_0000_0000_0000_0000
    } else {
        elapsed
    }
}

/// The sample count that belongs to the elapsed time.
pub fn sample_at(elapsed: i128, sample_rate: u32) -> (sample_index: u64)
    ensures
        sample_index == snapped_sample(elapsed as int, sample_rate as int),
{
    let near = within_far(0, elapsed, sample_rate);
    if near <= 0 {
        return 0;
    }
    assert(0 <= near * sample_rate <= 0x4000_0000_0000_0000_0000_0000 * 0xffff_ffff)
        by (nonlinear_arith)
        requires
            0 < near <= 0x4000_0000_0000_0000_0000_0000,
            0 <= sample_rate <= 0xffff_ffff,
    ;
    let scaled: i128 = near * (sample_rate as i128) + (NANOS_PER_SECOND as i128) / 2;
    let nearest: i128 = scaled / (NANOS_PER_SECOND as i128);
    if nearest > u64::MAX as i128 {
        u64::MAX
    } else {
        nearest as u64
    }
}

/// Compares the audio time of `sample_index` with the elapsed time and, where
/// they lie further apart than the threshold, gives the sample count to
/// continue from. `None` leaves the count alone.
pub fn correct_drift(sample_index: u64, elapsed: i128, sample_rate: u32) -> (to: Option<u64>)
    ensures
        to == resync(sample_index as int, elapsed as int, sample_rate as int),
{
    let near = within_far(sample_index, elapsed, sample_rate);
    assert(-0x4000_0000_0000_0000_0000_0000 * 0xffff_ffff <= near * sample_rate
        <= 0x4000_0000_0000_0000_0000_0000 * 0xffff_ffff) by (nonlinear_arith)
        requires
            -0x4000_0000_0000_0000_0000_0000 <= near <= 0x4000_0000_0000_0000_0000_0000,
            0 <= sample_rate <= 0xffff_ffff,
    ;
    assert(0 <= sample_index * NANOS_PER_SECOND <= u64::MAX * 1_000_000_000) by (nonlinear_arith)
        requires
            0 <= sample_index <= u64::MAX,
            NANOS_PER_SECOND == 1_000_000_000,
    ;
    assert(0 <= TIME_DIFFERENCE_THRESHOLD * sample_rate <= 200_000_000 * 0xffff_ffff)
        by (nonlinear_arith)
        requires
            0 <= sample_rate <= 0xffff_ffff,
            TIME_DIFFERENCE_THRESHOLD == 200_000_000,
    ;
    let audio: i128 = (sample_index as i128) * (NANOS_PER_SECOND as i128);
    let app: i128 = near * (sample_rate as i128);
    let gap: i128 = if audio < app {
        app - audio
    } else {
        audio - app
    };
    if gap > (TIME_DIFFERENCE_THRESHOLD as i128) * (sample_rate as i128) {
        Some(sample_at(elapsed, sample_rate))
    } else {
        None
    }
}

/// After a correction the audio time lies within half a sample of the
/// elapsed time, and so within the threshold again, as long as the elapsed
/// time is not before the start and its sample can be counted.
pub proof fn lemma_snap_is_in_step(elapsed: int, sample_rate: int)
    requires
        0 <= elapsed,
        1 <= sample_rate,
        nearest_sample(elapsed, sample_rate) <= u64::MAX,
    ensures
        2 * drift(snapped_sample(elapsed, sample_rate), elapsed, sample_rate) <= NANOS_PER_SECOND,
        sample_rate >= 3 ==> !out_of_step(
            snapped_sample(elapsed, sample_rate),
            elapsed,
            sample_rate,
        ),
{
    let app = elapsed * sample_rate;
    assert(app >= 0) by (nonlinear_arith)
        requires
            app == elapsed * sample_rate,
            0 <= elapsed,
            1 <= sample_rate,
    ;
    if elapsed > 0 {
        let nearest = (app + 500_000_000) / 1_000_000_000;
        assert(nearest == nearest_sample(elapsed, sample_rate));
        assert(nearest * 1_000_000_000 <= app + 500_000_000 < nearest * 1_000_000_000
            + 1_000_000_000);
    }
    assert(TIME_DIFFERENCE_THRESHOLD * sample_rate >= 500_000_000 || sample_rate < 3)
        by (nonlinear_arith);
}

/// At the rate of `SAMPLE_RATE`, the sample of every playback time that a
/// control can come to can be counted: such times lie within three times the
/// span of the host clock.
pub proof fn lemma_sample_can_be_counted(elapsed: int)
    requires
        elapsed <= 3 * 0x8000_0000_0000_0000,
    ensures
        nearest_sample(elapsed, SAMPLE_RATE as int) <= u64::MAX,
{
}

} // verus!
