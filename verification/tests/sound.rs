use sonars::sound::{
    empty_sound_fn, SoundAction, SoundControl, SoundPlugin, State, StateViolation, EMPTY_SOUND_FN,
};

const SECOND: i64 = 1_000_000_000;

fn time_of(control: &SoundControl) -> i128 {
    control.time()
}

#[test]
fn new_control_is_stopped_and_silent() {
    let control = SoundControl::default();
    assert_eq!(control.state(), State::Stopped);
    assert_eq!(time_of(&control), 0);
    assert_eq!(control.start_time(), 0);
    assert_eq!(control.current_soundfn(), EMPTY_SOUND_FN);
    assert_eq!(empty_sound_fn(), 0);
}

#[test]
fn frames_with_nothing_queued_publish_nothing() {
    let mut control = SoundControl::default();
    assert_eq!(control.update(0), None);
    assert_eq!(control.update(1), None);
    assert_eq!(control.current_soundfn(), EMPTY_SOUND_FN);
    control.push_soundfn(8);
    assert_eq!(control.update(2), Some(8));
    assert_eq!(control.update(3), None);
    assert_eq!(control.current_soundfn(), 8);
}

#[test]
fn only_the_last_of_three_pushed_functions_becomes_live() {
    let mut control = SoundControl::default();
    control.update(0);
    control.push_soundfn(11);
    control.push_soundfn(12);
    control.push_soundfn(13);
    assert_eq!(control.current_soundfn(), EMPTY_SOUND_FN);
    assert_eq!(control.update(SECOND), Some(13));
    assert_eq!(control.current_soundfn(), 13);
    assert_eq!(control.update(2 * SECOND), None);
    assert_eq!(control.current_soundfn(), 13);
}

#[test]
fn functions_leave_the_queue_oldest_first() {
    let mut control = SoundControl::default();
    control.push_soundfn(5);
    assert_eq!(control.update(0), Some(5));
    control.push_soundfn(9);
    control.push_soundfn(7);
    assert_eq!(control.update(1), Some(7));
    control.push_soundfn(7);
    assert_eq!(control.update(2), Some(7));
    assert_eq!(control.update(3), None);
}

#[test]
fn independent_controls_do_not_share_their_queues() {
    let mut one = SoundControl::default();
    let mut other = SoundControl::default();
    one.push_soundfn(1);
    other.push_soundfn(2);
    assert_eq!(one.update(0), Some(1));
    assert_eq!(other.update(0), Some(2));
}

#[test]
fn playback_time_follows_host_time() {
    let mut control = SoundControl::default();
    control.update(10 * SECOND);
    assert_eq!(time_of(&control), i128::from(10 * SECOND));
    control.update(10 * SECOND + 16_000_000);
    assert_eq!(time_of(&control), i128::from(10 * SECOND + 16_000_000));
}

#[test]
fn seeking_moves_the_start() {
    let mut control = SoundControl::default();
    control.update(10 * SECOND);
    control.set_time(3 * SECOND);
    assert_eq!(time_of(&control), i128::from(3 * SECOND));
    assert_eq!(control.start_time(), i128::from(7 * SECOND));
    control.update(11 * SECOND);
    assert_eq!(time_of(&control), i128::from(4 * SECOND));
    control.set_time(-SECOND);
    assert_eq!(time_of(&control), i128::from(-SECOND));
    assert_eq!(control.start_time(), i128::from(12 * SECOND));
    control.update(12 * SECOND);
    assert_eq!(time_of(&control), 0);
}

#[test]
fn sound_starts_only_when_stopped() {
    let mut control = SoundControl::default();
    assert_eq!(control.start(), Ok(()));
    assert_eq!(control.state(), State::Starting);
    assert_eq!(
        control.start(),
        Err(StateViolation {
            state: State::Starting
        })
    );
    assert_eq!(control.state(), State::Starting);
    SoundPlugin.update(&mut control, 0, 0);
    assert_eq!(control.state(), State::Running);
    assert_eq!(
        control.start(),
        Err(StateViolation {
            state: State::Running
        })
    );
    assert_eq!(control.state(), State::Running);
}

#[test]
fn frames_of_a_stopped_control_do_nothing() {
    let mut control = SoundControl::default();
    control.push_soundfn(4);
    assert_eq!(SoundPlugin.update(&mut control, 5 * SECOND, 0), SoundAction::Idle);
    assert_eq!(control.state(), State::Stopped);
    assert_eq!(time_of(&control), 0);
    assert_eq!(control.current_soundfn(), EMPTY_SOUND_FN);
}

#[test]
fn frames_walk_through_the_states() {
    let mut control = SoundControl::default();
    control.start().unwrap();
    control.push_soundfn(4);
    assert_eq!(
        SoundPlugin.update(&mut control, SECOND, 0),
        SoundAction::InitBackend
    );
    assert_eq!(time_of(&control), 0);
    assert_eq!(control.current_soundfn(), EMPTY_SOUND_FN);
    // one second in, nothing rendered yet: the renderer is sent to 44100
    assert_eq!(
        SoundPlugin.update(&mut control, SECOND, 0),
        SoundAction::Render {
            publish: Some(4),
            resync: Some(44_100)
        }
    );
    assert_eq!(control.current_soundfn(), 4);
    assert_eq!(time_of(&control), i128::from(SECOND));
    // a tenth of a second apart is within the threshold
    assert_eq!(
        SoundPlugin.update(&mut control, SECOND + SECOND / 10, 44_100),
        SoundAction::Render {
            publish: None,
            resync: None
        }
    );
    // the renderer ran ahead by three tenths of a second
    assert_eq!(
        SoundPlugin.update(&mut control, 2 * SECOND, 2 * 44_100 + 13_230),
        SoundAction::Render {
            publish: None,
            resync: Some(88_200)
        }
    );
}

#[test]
fn a_running_control_with_nothing_queued_publishes_nothing() {
    let mut control = SoundControl::default();
    control.start().unwrap();
    assert_eq!(SoundPlugin.update(&mut control, 0, 0), SoundAction::InitBackend);
    assert_eq!(
        SoundPlugin.update(&mut control, 1, 0),
        SoundAction::Render {
            publish: None,
            resync: None
        }
    );
}

#[test]
fn times_at_the_ends_of_the_host_clock() {
    let mut control = SoundControl::default();
    control.update(i64::MIN);
    assert_eq!(time_of(&control), i128::from(i64::MIN));
    control.set_time(i64::MAX);
    assert_eq!(time_of(&control), i128::from(i64::MAX));
    assert_eq!(
        control.start_time(),
        i128::from(i64::MIN) - i128::from(i64::MAX)
    );
    control.update(i64::MAX);
    assert_eq!(time_of(&control), 2 * i128::from(i64::MAX) - i128::from(i64::MIN));
    control.set_time(i64::MIN);
    assert_eq!(
        control.start_time(),
        i128::from(i64::MAX) - i128::from(i64::MIN)
    );
    control.update(i64::MIN);
    assert_eq!(time_of(&control), 2 * i128::from(i64::MIN) - i128::from(i64::MAX));
    control.start().unwrap();
    SoundPlugin.update(&mut control, i64::MIN, 5);
    assert_eq!(
        SoundPlugin.update(&mut control, i64::MIN, 5),
        SoundAction::Render {
            publish: None,
            resync: Some(0)
        }
    );
}
