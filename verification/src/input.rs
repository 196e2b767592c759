use vstd::prelude::*;

verus! {

/// How long a hold clears the loop when nothing else is configured, in
/// milliseconds.
pub const LONG_PRESS_THRESHOLD_MS: u64 = 2000;

/// Turns "is it down right now" into short-press vs long-press-clear, like
/// a real footswitch: long-press fires the moment the threshold is crossed,
/// while still held; a short press fires on release, once it's known not to
/// be a long one.
#[derive(Debug, Clone, Copy, PartialEq, Eq, Structural)]
pub enum InputEvent {
    /// Nothing happened on this frame.
    Nothing,
    ShortPress,
    LongPressClear,
}

/// Times are milliseconds on one monotonic clock of the caller's choosing;
/// only differences between them matter.
pub struct InputHandler {
    /// When the current hold began, while the control is down.
    pressed_at: Option<u64>,
    long_press_fired: bool,
    threshold_ms: u64,
}

/// What an `InputHandler` remembers between frames.
pub struct InputModel {
    pub pressed_at: Option<u64>,
    pub long_press_fired: bool,
    pub threshold_ms: u64,
}

/// How long `now` is after `then`, or nothing if the clock seems to have
/// gone backwards.
pub open spec fn elapsed(then: u64, now: u64) -> int {
    if now >= then {
        now - then
    } else {
        0
    }
}

/// The event one frame produces: `is_down` is the control's state on that
/// frame, `now` its time.
pub open spec fn input_event(m: InputModel, is_down: bool, now: u64) -> InputEvent {
    if is_down {
        match m.pressed_at {
            Option::None => InputEvent::Nothing,
            Option::Some(at) => if !m.long_press_fired && elapsed(at, now) >= m.threshold_ms {
                InputEvent::LongPressClear
            } else {
                InputEvent::Nothing
            },
        }
    } else if m.pressed_at.is_some() && !m.long_press_fired {
        InputEvent::ShortPress
    } else {
        InputEvent::Nothing
    }
}

/// What the handler remembers after that frame.
pub open spec fn input_next(m: InputModel, is_down: bool, now: u64) -> InputModel {
    if is_down {
        match m.pressed_at {
            Option::None => InputModel { pressed_at: Some(now), long_press_fired: false, ..m },
            Option::Some(at) => if !m.long_press_fired && elapsed(at, now) >= m.threshold_ms {
                InputModel { long_press_fired: true, ..m }
            } else {
                m
            },
        }
    } else {
        InputModel { pressed_at: Option::None, ..m }
    }
}

impl View for InputHandler {
    type V = InputModel;

    closed spec fn view(&self) -> InputModel {
        InputModel {
            pressed_at: self.pressed_at,
            long_press_fired: self.long_press_fired,
            threshold_ms: self.threshold_ms,
        }
    }
}

impl InputHandler {
    /// A handler that clears on a hold of `LONG_PRESS_THRESHOLD_MS`.
    pub fn new() -> (handler: Self)
        ensures
            handler@ == (InputModel {
                pressed_at: Option::None,
                long_press_fired: false,
                threshold_ms: LONG_PRESS_THRESHOLD_MS,
            }),
    {
        Self::with_threshold(LONG_PRESS_THRESHOLD_MS)
    }

    /// A handler that clears on a hold of `threshold_ms` - the
    /// `long_press_ms` setting.
    pub fn with_threshold(threshold_ms: u64) -> (handler: Self)
        ensures
            handler@ == (InputModel {
                pressed_at: Option::None,
                long_press_fired: false,
                threshold_ms,
            }),
    {
        InputHandler { pressed_at: None, long_press_fired: false, threshold_ms }
    }

    /// How long the control has to be held to clear, in milliseconds.
    pub fn long_press_threshold_ms(&self) -> (threshold_ms: u64)
        ensures
            threshold_ms == self@.threshold_ms,
    {
        self.threshold_ms
    }

    /// True from the frame `LongPressClear` fired until release - for UI
    /// confirming the clear, distinct from the one-shot event itself.
    pub fn is_long_press_active(&self) -> (active: bool)
        ensures
            active == (self@.pressed_at.is_some() && self@.long_press_fired),
    {
        self.pressed_at.is_some() && self.long_press_fired
    }

    /// Call once per frame.
    pub fn update(&mut self, is_down: bool, now: u64) -> (event: InputEvent)
        ensures
            event == input_event(old(self)@, is_down, now),
            final(self)@ == input_next(old(self)@, is_down, now),
    {
        if is_down {
            match self.pressed_at {
                None => {
                    self.pressed_at = Some(now);
                    self.long_press_fired = false;
                    InputEvent::Nothing
                },
                Some(pressed_at) => {
                    let held = if now >= pressed_at {
                        now - pressed_at
                    } else {
                        0
                    };
                    if !self.long_press_fired && held >= self.threshold_ms {
                        self.long_press_fired = true;
                        InputEvent::LongPressClear
                    } else {
                        InputEvent::Nothing
                    }
                },
            }
        } else {
            let was_down = self.pressed_at.is_some();
            self.pressed_at = None;
            if was_down && !self.long_press_fired {
                InputEvent::ShortPress
            } else {
                InputEvent::Nothing
            }
        }
    }
}

impl Default for InputHandler {
    fn default() -> (handler: Self)
        ensures
            handler@ == (InputModel {
                pressed_at: Option::None,
                long_press_fired: false,
                threshold_ms: LONG_PRESS_THRESHOLD_MS,
            }),
    {
        Self::new()
    }
}

/// A hold fires at most one clear: once it has, nothing more comes of
/// that hold, however long it goes on and however it ends - releasing
/// after a long press does not also fire a short one.
pub proof fn lemma_long_press_fires_once(m: InputModel, is_down: bool, now: u64)
    requires
        m.pressed_at.is_some(),
        m.long_press_fired,
    ensures
        input_event(m, is_down, now) == InputEvent::Nothing,
{
}

/// A press whose next frame finds the control released is a short press,
/// on that frame and not before: the clear only ever fires on a frame the
/// control is still down, however long the press lasted.
pub proof fn lemma_quick_release_is_a_short_press(m: InputModel, down_at: u64, up_at: u64)
    requires
        m.pressed_at.is_none(),
    ensures
        input_event(m, true, down_at) == InputEvent::Nothing,
        input_event(input_next(m, true, down_at), false, up_at) == InputEvent::ShortPress,
{
}

/// Holding the control fires the clear on the first frame at or past the
/// threshold, while it is still held.
pub proof fn lemma_hold_past_threshold_clears(m: InputModel, down_at: u64, now: u64)
    requires
        m.pressed_at.is_none(),
        now >= down_at,
        now - down_at >= m.threshold_ms,
    ensures
        input_event(input_next(m, true, down_at), true, now) == InputEvent::LongPressClear,
{
}

/// Releasing resets the control: whatever happened during the hold, the
/// next press starts afresh.
pub proof fn lemma_release_resets(m: InputModel, now: u64)
    ensures
        input_next(m, false, now).pressed_at.is_none(),
        input_event(input_next(m, false, now), false, now) == InputEvent::Nothing,
{
}

/// The events a hold produces: the control is down on every frame, at
/// `times`.
pub open spec fn hold_events(m: InputModel, times: Seq<u64>) -> Seq<InputEvent>
    decreases times.len(),
{
    if times.len() == 0 {
        Seq::empty()
    } else {
        seq![input_event(m, true, times[0])] + hold_events(input_next(m, true, times[0]), times.skip(1))
    }
}

/// What the handler remembers at the end of such a hold.
pub open spec fn after_hold(m: InputModel, times: Seq<u64>) -> InputModel
    decreases times.len(),
{
    if times.len() == 0 {
        m
    } else {
        after_hold(input_next(m, true, times[0]), times.skip(1))
    }
}

/// The first of `times` at least `threshold` after `from`, or the number
/// of them where there is none.
pub open spec fn first_due(from: u64, times: Seq<u64>, threshold: u64) -> nat
    decreases times.len(),
{
    if times.len() == 0 {
        0
    } else if elapsed(from, times[0]) >= threshold {
        0
    } else {
        1 + first_due(from, times.skip(1), threshold)
    }
}

proof fn lemma_held(m: InputModel, times: Seq<u64>)
    requires
        m.pressed_at is Some,
    ensures
        hold_events(m, times).len() == times.len(),
        forall|i: int|
            0 <= i < times.len() ==> #[trigger] hold_events(m, times)[i] == if !m.long_press_fired
                && i == first_due(m.pressed_at->0, times, m.threshold_ms) {
                InputEvent::LongPressClear
            } else {
                InputEvent::Nothing
            },
        after_hold(m, times).pressed_at == m.pressed_at,
        after_hold(m, times).threshold_ms == m.threshold_ms,
        after_hold(m, times).long_press_fired == (m.long_press_fired || first_due(
            m.pressed_at->0,
            times,
            m.threshold_ms,
        ) < times.len()),
    decreases times.len(),
{
    if times.len() > 0 {
        let m1 = input_next(m, true, times[0]);
        let rest = times.skip(1);
        lemma_held(m1, rest);
        let t0 = m.pressed_at->0;
        assert forall|i: int| 0 <= i < times.len() implies #[trigger] hold_events(m, times)[i]
            == if !m.long_press_fired && i == first_due(t0, times, m.threshold_ms) {
            InputEvent::LongPressClear
        } else {
            InputEvent::Nothing
        } by {
            if i > 0 {
                assert(hold_events(m, times)[i] == hold_events(m1, rest)[i - 1]);
                assert(rest[i - 1] == times[i]);
            }
        }
    }
}

/// The first of `times` at least `threshold` after `from` is that: every
/// one before it is less, and it is not.
proof fn lemma_first_due(from: u64, times: Seq<u64>, threshold: u64)
    ensures
        first_due(from, times, threshold) <= times.len(),
        forall|k: int|
            0 <= k < first_due(from, times, threshold) ==> elapsed(from, #[trigger] times[k])
                < threshold,
        first_due(from, times, threshold) < times.len() ==> elapsed(
            from,
            times[first_due(from, times, threshold) as int],
        ) >= threshold,
    decreases times.len(),
{
    if times.len() > 0 && elapsed(from, times[0]) < threshold {
        let rest = times.skip(1);
        lemma_first_due(from, rest, threshold);
        assert forall|k: int| 0 <= k < first_due(from, times, threshold) implies elapsed(
            from,
            #[trigger] times[k],
        ) < threshold by {
            if k > 0 {
                assert(times[k] == rest[k - 1]);
            }
        }
    }
}

/// A hold clears at most once: from a released control, pressing at
/// `times[0]` and keeping it down on every frame at `times`, the clear
/// comes on the first frame at least the threshold after the press, and
/// on no other; every other frame of the hold gives nothing. Releasing
/// afterwards gives a short press exactly when no clear came, and ends
/// the hold, so the next hold starts afresh. These are the events that
/// `InputHandler::update` returns call by call, its contract being
/// `input_event` and `input_next` of the handler's model.
pub proof fn lemma_one_clear_per_hold(m: InputModel, times: Seq<u64>, release_at: u64)
    requires
        m.pressed_at is None,
        times.len() > 0,
    ensures
        hold_events(m, times).len() == times.len(),
        forall|i: int|
            0 <= i < times.len() ==> #[trigger] hold_events(m, times)[i] == if i == 1 + first_due(
                times[0],
                times.skip(1),
                m.threshold_ms,
            ) {
                InputEvent::LongPressClear
            } else {
                InputEvent::Nothing
            },
        input_event(after_hold(m, times), false, release_at) == if 1 + first_due(
            times[0],
            times.skip(1),
            m.threshold_ms,
        ) < times.len() {
            InputEvent::Nothing
        } else {
            InputEvent::ShortPress
        },
        input_next(after_hold(m, times), false, release_at).pressed_at is None,
        forall|i: int|
            0 <= i < times.len() ==> (#[trigger] hold_events(m, times)[i]
                == InputEvent::LongPressClear <==> (i > 0 && elapsed(times[0], times[i])
                >= m.threshold_ms && forall|k: int|
                1 <= k < i ==> elapsed(times[0], #[trigger] times[k]) < m.threshold_ms)),
{
    let m1 = input_next(m, true, times[0]);
    let rest = times.skip(1);
    lemma_held(m1, rest);
    lemma_first_due(times[0], rest, m.threshold_ms);
    let due = first_due(times[0], rest, m.threshold_ms);
    assert forall|i: int| 0 <= i < times.len() implies (#[trigger] hold_events(m, times)[i]
        == InputEvent::LongPressClear <==> (i > 0 && elapsed(times[0], times[i])
        >= m.threshold_ms && forall|k: int|
        1 <= k < i ==> elapsed(times[0], #[trigger] times[k]) < m.threshold_ms)) by {
        if i > 0 {
            assert(times[i] == rest[i - 1]);
            if i == 1 + due {
                assert forall|k: int| 1 <= k < i implies elapsed(times[0], #[trigger] times[k])
                    < m.threshold_ms by {
                    assert(times[k] == rest[k - 1]);
                }
            } else if i > 1 + due {
                assert(times[1 + due as int] == rest[due as int]);
                assert(elapsed(times[0], times[1 + due as int]) >= m.threshold_ms);
            } else {
                assert(elapsed(times[0], rest[i - 1]) < m.threshold_ms);
            }
        }
    }
    assert forall|i: int| 0 <= i < times.len() implies #[trigger] hold_events(m, times)[i] == if i
        == 1 + first_due(times[0], rest, m.threshold_ms) {
        InputEvent::LongPressClear
    } else {
        InputEvent::Nothing
    } by {
        if i > 0 {
            assert(hold_events(m, times)[i] == hold_events(m1, rest)[i - 1]);
        }
    }
}

} // verus!
