use sonars::math::bjorklund::InvalidRhythmParameters;
use sonars::math::{cache_maths, euc};

const SECOND: i64 = 1_000_000_000;

#[test]
fn gate_of_ten_steps_and_three_pulses() {
    // the pattern is on, off, off, on, off, off, on, off, off, off
    let cache = cache_maths();
    // 0.37 s is in the fourth step, which is on, and 70% through it
    assert_eq!(euc(&cache, 10, 3, 370_000_000), Ok(700_000_000));
    // 0.51 s is in the sixth step, which is off
    assert_eq!(euc(&cache, 10, 3, 510_000_000), Ok(0));
    assert_eq!(euc(&cache, 10, 3, 0), Ok(0));
    assert_eq!(euc(&cache, 10, 3, 1), Ok(10));
    assert_eq!(euc(&cache, 10, 3, 99_999_999), Ok(999_999_990));
    assert_eq!(euc(&cache, 10, 3, 100_000_000), Ok(0));
    assert_eq!(euc(&cache, 10, 3, 650_000_000), Ok(500_000_000));
    assert_eq!(euc(&cache, 10, 3, 999_999_999), Ok(0));
}

#[test]
fn gate_runs_through_once_per_second() {
    let cache = cache_maths();
    for t in [0i64, 50_000_000, 300_000_000, 310_000_000, 900_000_001] {
        let first = euc(&cache, 7, 3, t);
        assert_eq!(euc(&cache, 7, 3, t + SECOND), first);
        assert_eq!(euc(&cache, 7, 3, t + 5_000 * SECOND), first);
        assert_eq!(euc(&cache, 7, 3, t - SECOND), first);
        assert_eq!(euc(&cache, 7, 3, t - 77 * SECOND), first);
    }
    assert_eq!(euc(&cache, 7, 3, 50_000_000), Ok(350_000_000));
    assert_eq!(euc(&cache, 7, 3, 150_000_000), Ok(0));
    assert_eq!(euc(&cache, 7, 3, 300_000_000), Ok(100_000_000));
    assert_eq!(euc(&cache, 7, 3, -950_000_000), Ok(350_000_000));
    assert_eq!(euc(&cache, 7, 3, -1), Ok(0));
}

#[test]
fn gate_at_the_ends_of_time() {
    let cache = cache_maths();
    // i64::MAX is 9223372036 s and 854775807 ns
    assert_eq!(euc(&cache, 1, 1, i64::MAX), Ok(854_775_807));
    // i64::MIN lies 145224192 ns into its second
    assert_eq!(euc(&cache, 1, 1, i64::MIN), Ok(145_224_192));
    assert_eq!(euc(&cache, 64, 64, i64::MAX), Ok((854_775_807i64 * 64) % SECOND));
}

#[test]
fn gate_refuses_what_is_no_rhythm() {
    let cache = cache_maths();
    assert_eq!(
        euc(&cache, 3, 7, 0),
        Err(InvalidRhythmParameters { steps: 3, pulses: 7 })
    );
    assert_eq!(
        euc(&cache, 0, 0, 5),
        Err(InvalidRhythmParameters { steps: 0, pulses: 0 })
    );
    assert_eq!(
        euc(&cache, 8, 0, 5),
        Err(InvalidRhythmParameters { steps: 8, pulses: 0 })
    );
    assert_eq!(
        euc(&cache, 65, 3, 5),
        Err(InvalidRhythmParameters { steps: 65, pulses: 3 })
    );
}
