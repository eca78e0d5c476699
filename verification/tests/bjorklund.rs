use sonars::math::bjorklund::{
    bjorklund_bool, cached_bjorklund, cached_bjorklund_index, EuclideanPatternCache,
    InvalidRhythmParameters, BJORKLUND_CACHE_MAX,
};
use sonars::math::cache_maths;

#[test]
fn test_bjorklund() {
    assert_eq!(bjorklund_bool(2, 1).unwrap(), vec![true, false]);
    assert_eq!(
        bjorklund_bool(7, 3).unwrap(),
        vec![true, false, true, false, true, false, false]
    );
    assert_eq!(
        bjorklund_bool(8, 4).unwrap(),
        vec![true, false, true, false, true, false, true, false]
    );
    assert_eq!(
        bjorklund_bool(9, 1).unwrap(),
        vec![true, false, false, false, false, false, false, false, false]
    );
    assert_eq!(
        bjorklund_bool(10, 10).unwrap(),
        vec![true, true, true, true, true, true, true, true, true, true]
    );
    assert_eq!(
        bjorklund_bool(16, 3).unwrap(),
        vec![
            true, false, false, false, false, true, false, false, false, false, true, false,
            false, false, false, false
        ]
    );

    assert_eq!(
        bjorklund_bool(145, 92).unwrap(),
        vec![
            true, false, true, true, false, true, true, false, true, false, true, true, false,
                true, true, false, true, true, false, true, false, true, true, false, true, true,
                false, true, true, false, true, false, true, true, false, true, true, false, true,
                true, false, true, false, true, true, false, true, true, false, true, false, true,
                true, false, true, true, false, true, true, false, true, false, true, true, false,
                true, true, false, true, true, false, true, false, true, true, false, true, true,
                false, true, true, false, true, false, true, true, false, true, true, false, true,
                true, false, true, false, true, true, false, true, true, false, true, false, true,
                true, false, true, true, false, true, true, false, true, false, true, true, false,
                true, true, false, true, true, false, true, false, true, true, false, true, true,
                false, true, true, false, true, false, true, true, false, true, true, false, true,
                true, false
        ]
    );
}

#[test]
fn test_cached_bjorklund() {
    let cache = cache_maths();
    assert_eq!(
        bjorklund_bool(16, 3).unwrap()[3],
        cached_bjorklund(&cache, 16, 3, 3).unwrap()
    );
    assert_eq!(
        bjorklund_bool(19, 12).unwrap()[4],
        cached_bjorklund(&cache, 19, 12, 4).unwrap()
    );
    assert_eq!(
        bjorklund_bool(8, 7).unwrap()[1],
        cached_bjorklund(&cache, 8, 7, 1).unwrap()
    );
    assert_eq!(
        bjorklund_bool(8, 7).unwrap()[2],
        cached_bjorklund(&cache, 8, 7, 2).unwrap()
    );
    assert_eq!(
        bjorklund_bool(23, 4).unwrap()[3],
        cached_bjorklund(&cache, 24, 4, 3).unwrap()
    );
    for i in 0..32 {
        assert_eq!(
            bjorklund_bool(32, 7).unwrap()[i],
            cached_bjorklund(&cache, 32, 7, i).unwrap()
        );
    }
}

#[test]
fn more_pulses_than_steps_is_refused() {
    assert_eq!(
        bjorklund_bool(3, 7),
        Err(InvalidRhythmParameters { steps: 3, pulses: 7 })
    );
    assert_eq!(
        bjorklund_bool(0, 1),
        Err(InvalidRhythmParameters { steps: 0, pulses: 1 })
    );
}

#[test]
fn no_pulse_is_refused() {
    assert_eq!(
        bjorklund_bool(4, 0),
        Err(InvalidRhythmParameters { steps: 4, pulses: 0 })
    );
    assert_eq!(
        bjorklund_bool(0, 0),
        Err(InvalidRhythmParameters { steps: 0, pulses: 0 })
    );
}

#[test]
fn single_step_rhythm() {
    assert_eq!(bjorklund_bool(1, 1).unwrap(), vec![true]);
}

#[test]
fn classic_rhythms() {
    // tresillo and cinquillo
    assert_eq!(
        bjorklund_bool(8, 3).unwrap(),
        vec![true, false, false, true, false, false, true, false]
    );
    assert_eq!(
        bjorklund_bool(8, 5).unwrap(),
        vec![true, false, true, true, false, true, true, false]
    );
    assert_eq!(
        bjorklund_bool(5, 2).unwrap(),
        vec![true, false, true, false, false]
    );
}

#[test]
fn every_rhythm_has_its_steps_and_pulses_and_starts_on_an_onset() {
    for steps in 1..=80usize {
        for pulses in 1..=steps {
            let pattern = bjorklund_bool(steps, pulses).unwrap();
            assert_eq!(pattern.len(), steps);
            assert_eq!(pattern.iter().filter(|onset| **onset).count(), pulses);
            assert!(pattern[0]);
        }
    }
}

#[test]
fn table_agrees_with_generation_everywhere() {
    let cache = EuclideanPatternCache::new();
    for steps in 1..=BJORKLUND_CACHE_MAX {
        for pulses in 1..=steps {
            let pattern = bjorklund_bool(steps, pulses).unwrap();
            for index in 0..steps {
                assert_eq!(
                    cached_bjorklund(&cache, steps, pulses, index),
                    Ok(pattern[index])
                );
            }
        }
    }
}

#[test]
fn table_refuses_what_it_does_not_hold() {
    let cache = cache_maths();
    assert_eq!(
        cached_bjorklund(&cache, 3, 7, 0),
        Err(InvalidRhythmParameters { steps: 3, pulses: 7 })
    );
    assert_eq!(
        cached_bjorklund(&cache, 65, 3, 0),
        Err(InvalidRhythmParameters { steps: 65, pulses: 3 })
    );
    assert_eq!(
        cached_bjorklund(&cache, 4, 0, 1),
        Err(InvalidRhythmParameters { steps: 4, pulses: 0 })
    );
    assert_eq!(
        cached_bjorklund(&cache, 0, 1, 0),
        Err(InvalidRhythmParameters { steps: 0, pulses: 1 })
    );
    assert_eq!(
        cached_bjorklund(&cache, 0, 0, 9),
        Err(InvalidRhythmParameters { steps: 0, pulses: 0 })
    );
    assert_eq!(
        cached_bjorklund(&cache, 3, 7, 500_000),
        Err(InvalidRhythmParameters { steps: 3, pulses: 7 })
    );
    assert_eq!(
        cached_bjorklund(&cache, usize::MAX, 1, usize::MAX),
        Err(InvalidRhythmParameters { steps: usize::MAX, pulses: 1 })
    );
    assert_eq!(cached_bjorklund(&cache, 64, 64, 63), Ok(true));
    assert_eq!(cached_bjorklund(&cache, 64, 1, 63), Ok(false));
}

#[test]
fn table_positions() {
    assert_eq!(cached_bjorklund_index(1, 1, 0), 0);
    assert_eq!(cached_bjorklund_index(1, 1, 5), 5);
    assert_eq!(cached_bjorklund_index(1, 2, 0), 64);
    assert_eq!(cached_bjorklund_index(2, 1, 0), 4096);
    assert_eq!(cached_bjorklund_index(16, 3, 3), 15 * 4096 + 2 * 64 + 3);
    assert_eq!(cached_bjorklund_index(64, 64, 63), 64 * 64 * 64 - 1);
}

#[test]
fn onsets_lie_evenly_round_the_cycle() {
    for steps in 1..=80usize {
        for pulses in 1..=steps {
            let pattern = bjorklund_bool(steps, pulses).unwrap();
            let least = (steps - pulses) / pulses;
            let onsets: Vec<usize> = (0..steps).filter(|at| pattern[*at]).collect();
            for (nth, at) in onsets.iter().enumerate() {
                let next = if nth + 1 < onsets.len() {
                    onsets[nth + 1]
                } else {
                    onsets[0] + steps
                };
                let rests = next - at - 1;
                assert!(rests == least || rests == least + 1);
            }
        }
    }
}

#[test]
fn pulses_that_divide_the_steps_give_a_plain_beat() {
    for pulses in 1..=24usize {
        for every in 1..=6usize {
            let steps = pulses * every;
            let pattern = bjorklund_bool(steps, pulses).unwrap();
            for at in 0..steps {
                assert_eq!(pattern[at], at % every == 0);
            }
        }
    }
    assert_eq!(
        bjorklund_bool(12, 4).unwrap(),
        vec![true, false, false, true, false, false, true, false, false, true, false, false]
    );
}
