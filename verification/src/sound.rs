//! Control of the sound that is playing.
//!
//! A sound function is a closure over time in floating point and stays with
//! the caller, who numbers the functions it makes. What passes through here is
//! the number: new functions are queued from wherever they are made, and once
//! per frame the queue is drained and the newest function is handed out to be
//! published to the audio renderer. Times are whole nanoseconds.

pub mod clock;
pub mod queue;

use crate::sound::clock::{
    correct_drift, drift, lemma_sample_can_be_counted, lemma_snap_is_in_step, out_of_step, resync,
    snapped_sample, NANOS_PER_SECOND, SAMPLE_RATE,
};
use crate::sound::queue::{queue_is_empty, queue_new, queue_pop, queue_push, queued};
use crossbeam_queue::SegQueue;
use vstd::prelude::*;

verus! {

/// The number under which the caller keeps a sound function.
pub type SoundFn = u64;

/// The number of the sound function that is silent at all times.
pub const EMPTY_SOUND_FN: SoundFn = 0;

/// The sound function to play while nothing else has been pushed: silence.
pub fn empty_sound_fn() -> (silence: SoundFn)
    ensures
        silence == EMPTY_SOUND_FN,
{
    EMPTY_SOUND_FN
}

/// Where playback stands. It only moves forward: stopped, starting, running.
#[derive(Clone, Copy, Debug, PartialEq, Eq, Structural)]
pub enum State {
    Stopped,
    Starting,
    Running,
}

/// Sound was started while it was not stopped; `state` is where it stood.
#[derive(Clone, Copy, Debug, PartialEq, Eq, Structural)]
pub struct StateViolation {
    pub state: State,
}

/// What the caller has to do after a frame of the sound system.
#[derive(Clone, Copy, Debug, PartialEq, Eq, Structural)]
pub enum SoundAction {
    /// Sound is stopped: nothing.
    Idle,
    /// Sound was starting and counts as running from now on: bring up the
    /// audio backend.
    InitBackend,
    /// Sound is running. Make `publish`, if there is one, the function that
    /// the audio renderer reads, and let the renderer continue from the
    /// sample count `resync`, if there is one.
    Render { publish: Option<SoundFn>, resync: Option<u64> },
}

/// The playback clock and the sound functions on their way to the renderer.
///
/// The clock keeps the host time of the latest frame, and one host time
/// together with the playback time that belongs to it: the anchor, which a
/// seek sets anew. Start and playback time follow from these, whatever the
/// host times and seeks were.
pub struct SoundControl {
    queue: SegQueue<SoundFn>,
    next_fn: SoundFn,
    anchor_host: i64,
    anchor_elapsed: i64,
    host_time: i64,
    state: State,
}

/// A `SoundControl` as the contracts see it.
pub struct SoundControlView {
    /// The functions pushed and not yet drained, oldest first.
    pub pending: Seq<SoundFn>,
    /// The function that was last drained: the one that plays.
    pub next_fn: SoundFn,
    /// The host time at which playback time was zero.
    pub start_time: int,
    /// Playback time as of the last frame.
    pub elapsed_time: int,
    pub state: State,
}

impl View for SoundControl {
    type V = SoundControlView;

    closed spec fn view(&self) -> SoundControlView {
        SoundControlView {
            pending: queued(self.queue),
            next_fn: self.next_fn,
            start_time: self.anchor_host - self.anchor_elapsed,
            elapsed_time: self.anchor_elapsed + self.host_time - self.anchor_host,
            state: self.state,
        }
    }
}

/// The function that is live once `pending` has been drained: the one pushed
/// last, or `current` where none was pushed.
pub open spec fn latest(current: SoundFn, pending: Seq<SoundFn>) -> SoundFn {
    if pending.len() == 0 {
        current
    } else {
        pending.last()
    }
}

impl SoundControlView {
    /// What holds of the times of every control: start and playback time
    /// add up to a host time, that of the latest frame, and the start lies no
    /// further from zero than two host times can lie apart.
    pub open spec fn valid(self) -> bool {
        &&& i64::MIN <= self.start_time + self.elapsed_time <= i64::MAX
        &&& i64::MIN - i64::MAX <= self.start_time <= i64::MAX - i64::MIN
    }

    /// The control after a frame at host time `time`: the queue is drained,
    /// its newest function is live, and the playback time follows the host.
    pub open spec fn updated(self, time: int) -> SoundControlView {
        SoundControlView {
            pending: Seq::empty(),
            next_fn: latest(self.next_fn, self.pending),
            elapsed_time: time - self.start_time,
            ..self
        }
    }

    /// The function to publish in a frame: the one pushed last, where any
    /// was pushed. A frame before which nothing was pushed publishes nothing.
    pub open spec fn to_publish(self) -> Option<SoundFn> {
        if self.pending.len() > 0 {
            Some(self.pending.last())
        } else {
            None
        }
    }

    /// One frame of the sound system at host time `time`, with `sample_index`
    /// samples rendered so far: the control after it, and what is left for
    /// the caller to do.
    pub open spec fn frame(self, time: int, sample_index: u64) -> (SoundControlView, SoundAction) {
        match self.state {
            State::Stopped => (self, SoundAction::Idle),
            State::Starting => (
                SoundControlView { state: State::Running, ..self },
                SoundAction::InitBackend,
            ),
            State::Running => (
                self.updated(time),
                SoundAction::Render {
                    publish: self.to_publish(),
                    resync: resync(
                        sample_index as int,
                        time - self.start_time,
                        SAMPLE_RATE as int,
                    ),
                },
            ),
        }
    }
}

impl State {
    /// How far playback has come: stopped, then starting, then running.
    pub open spec fn rank(self) -> int {
        match self {
            State::Stopped => 0,
            State::Starting => 1,
            State::Running => 2,
        }
    }
}

impl Default for SoundControl {
    /// Stopped at time zero, with nothing queued and silence as the live
    /// function.
    fn default() -> (control: SoundControl)
        ensures
            control@ == (SoundControlView {
                pending: Seq::empty(),
                next_fn: EMPTY_SOUND_FN,
                start_time: 0,
                elapsed_time: 0,
                state: State::Stopped,
            }),
            control@.valid(),
    {
        SoundControl {
            queue: queue_new(),
            next_fn: empty_sound_fn(),
            anchor_host: 0,
            anchor_elapsed: 0,
            host_time: 0,
            state: State::Stopped,
        }
    }
}

impl SoundControl {
    /// Queues a new sound function behind those that wait already. Nothing
    /// else changes: the function becomes live with the next frame.
    pub fn push_soundfn(&mut self, new_fn: SoundFn)
        ensures
            final(self)@ == (SoundControlView {
                pending: old(self)@.pending.push(new_fn),
                ..old(self)@
            }),
            final(self)@.valid(),
    {
        queue_push(&mut self.queue, new_fn);
    }

    /// One frame at host time `time`: drains the queue, keeps the function
    /// pushed last, moves the playback time on, and hands out the function
    /// to publish if one was pushed.
    pub fn update(&mut self, time: i64) -> (publish: Option<SoundFn>)
        ensures
            final(self)@ == old(self)@.updated(time as int),
            publish == old(self)@.to_publish(),
            final(self)@.valid(),
    {
        let ghost pending = self@.pending;
        let ghost drained: int = 0;
        let mut publish: Option<SoundFn> = None;
        assert(pending.skip(0) =~= pending);
        while !queue_is_empty(&self.queue)
            invariant
                0 <= drained <= pending.len(),
                queued(self.queue) == pending.skip(drained),
                self.next_fn == latest(old(self)@.next_fn, pending.take(drained)),
                publish == if drained > 0 {
                    Some(pending.take(drained).last())
                } else {
                    None
                },
                self.anchor_host == old(self).anchor_host,
                self.anchor_elapsed == old(self).anchor_elapsed,
                self.state == old(self).state,
            decreases queued(self.queue).len(),
        {
            let head = queue_pop(&mut self.queue);
            proof {
                assert(pending.skip(drained).drop_first() =~= pending.skip(drained + 1));
                assert(pending.take(drained + 1).last() == pending[drained]);
                drained = drained + 1;
            }
            self.next_fn = head.unwrap();
            publish = head;
        }
        assert(pending.take(drained) =~= pending);
        assert(queued(self.queue) =~= Seq::<SoundFn>::empty());
        self.host_time = time;
        publish
    }

    /// Seeks: playback time becomes `new_elapsed_time`, and the start moves
    /// so that the host time of the last frame still corresponds to it.
    pub fn set_time(&mut self, new_elapsed_time: i64)
        ensures
            final(self)@ == (SoundControlView {
                start_time: old(self)@.start_time + old(self)@.elapsed_time - new_elapsed_time,
                elapsed_time: new_elapsed_time as int,
                ..old(self)@
            }),
            final(self)@.start_time + final(self)@.elapsed_time
                == old(self)@.start_time + old(self)@.elapsed_time,
            final(self)@.valid(),
    {
        self.anchor_host = self.host_time;
        self.anchor_elapsed = new_elapsed_time;
    }

    /// Playback time as of the last frame.
    pub fn time(&self) -> (elapsed: i128)
        ensures
            elapsed == self@.elapsed_time,
            self@.valid(),
    {
        (self.anchor_elapsed as i128) + (self.host_time as i128) - (self.anchor_host as i128)
    }

    /// The host time at which playback time was zero.
    pub fn start_time(&self) -> (start: i128)
        ensures
            start == self@.start_time,
            self@.valid(),
    {
        (self.anchor_host as i128) - (self.anchor_elapsed as i128)
    }

    /// Where playback stands.
    pub fn state(&self) -> (state: State)
        ensures
            state == self@.state,
    {
        self.state
    }

    /// The function that was last drained from the queue.
    pub fn current_soundfn(&self) -> (current: SoundFn)
        ensures
            current == self@.next_fn,
    {
        self.next_fn
    }

    /// Starts sound. Only stopped sound can be started; otherwise nothing
    /// changes and the state is reported back.
    pub fn start(&mut self) -> (started: Result<(), StateViolation>)
        ensures
            started is Ok <==> old(self)@.state == State::Stopped,
            started is Ok ==> final(self)@ == (SoundControlView {
                state: State::Starting,
                ..old(self)@
            }),
            started matches Err(violation) ==> {
                &&& violation == (StateViolation { state: old(self)@.state })
                &&& final(self)@ == old(self)@
            },
            final(self)@.valid(),
    {
        match self.state {
            State::Stopped => {
                self.state = State::Starting;
                Ok(())
            },
            state => Err(StateViolation { state }),
        }
    }
}

/// The per-frame sound system.
pub struct SoundPlugin;

impl SoundPlugin {
    /// One frame of the sound system, at host time `time` and with
    /// `sample_index` samples rendered so far.
    ///
    /// Stopped sound is left alone. Starting sound becomes running, and the
    /// caller brings up the backend. Running sound has its control updated,
    /// and the sample count is corrected where the audio time has drifted
    /// from the playback time.
    pub fn update(&self, control: &mut SoundControl, time: i64, sample_index: u64) -> (action:
        SoundAction)
        ensures
            (final(control)@, action) == old(control)@.frame(time as int, sample_index),
            final(control)@.valid(),
    {
        match control.state {
            State::Starting => {
                control.state = State::Running;
                SoundAction::InitBackend
            },
            State::Running => {
                let publish = control.update(time);
                let resync = correct_drift(sample_index, control.time(), SAMPLE_RATE);
                SoundAction::Render { publish, resync }
            },
            State::Stopped => SoundAction::Idle,
        }
    }
}

/// The times of every control are valid, whatever was done with it.
pub proof fn lemma_control_is_valid(control: SoundControl)
    ensures
        control@.valid(),
{
}

/// Playback only moves forward, and no more than one state per frame: a
/// frame never stops sound, and stopped sound stays stopped until it is
/// started. While sound runs, its playback time is the host time less the
/// start.
pub proof fn lemma_playback_moves_forward(control: SoundControlView, time: int, sample_index: u64)
    ensures
        control.state.rank() <= control.frame(time, sample_index).0.state.rank()
            <= control.state.rank() + 1,
        control.frame(time, sample_index).0.state == State::Stopped <==> control.state
            == State::Stopped,
        control.frame(time, sample_index).0.start_time == control.start_time,
        control.state == State::Running ==> control.frame(time, sample_index).0.elapsed_time
            == time - control.start_time,
{
}

/// Only the function pushed last before a frame becomes live and is
/// published: the frame skips all that were pushed before it, and leaves
/// nothing queued.
pub proof fn lemma_last_push_wins(control: SoundControlView, pushed: Seq<SoundFn>, time: int)
    requires
        pushed.len() > 0,
    ensures
        (SoundControlView { pending: control.pending + pushed, ..control }).updated(time).next_fn
            == pushed.last(),
        (SoundControlView { pending: control.pending + pushed, ..control }).updated(
            time,
        ).pending.len() == 0,
        (SoundControlView { pending: control.pending + pushed, ..control }).to_publish() == Some(
            pushed.last(),
        ),
{
}

/// A frame before which nothing was pushed leaves the live function as it
/// is and publishes nothing.
pub proof fn lemma_idle_frame_keeps_function(control: SoundControlView, time: int)
    requires
        control.pending.len() == 0,
    ensures
        control.updated(time).next_fn == control.next_fn,
        control.to_publish().is_none(),
{
}

/// Where a frame of running sound finds the sample count out of step with
/// a playback time that is not before the start, it hands out a count that
/// lies within half a sample of that time.
pub proof fn lemma_frame_resync_is_in_step(control: SoundControlView, time: i64, sample_index: u64)
    requires
        control.valid(),
        control.state == State::Running,
        time - control.start_time >= 0,
        out_of_step(sample_index as int, time - control.start_time, SAMPLE_RATE as int),
    ensures
        control.frame(time as int, sample_index).1 matches SoundAction::Render {
            resync: Some(to),
            ..
        } && to == snapped_sample(time - control.start_time, SAMPLE_RATE as int) && 2 * drift(
            to as int,
            control.frame(time as int, sample_index).0.elapsed_time,
            SAMPLE_RATE as int,
        ) <= NANOS_PER_SECOND,
{
    let elapsed = time - control.start_time;
    lemma_sample_can_be_counted(elapsed);
    lemma_snap_is_in_step(elapsed, SAMPLE_RATE as int);
}

} // verus!
