//! The player's movement state machine and the decisions taken on it each
//! frame. Times are measured in nanoseconds since the game started.
use vstd::prelude::*;

verus! {

/// How long, in nanoseconds, a jump may rise before the player starts to fall.
pub const MAX_JUMP_NANOS: u64 = 500_000_000;

/// How long, in nanoseconds, after a jump the player ignores ground contact;
/// the player can still touch the ground it took off from.
pub const TAKEOFF_NANOS: u64 = 50_000_000;

/// The movement states of the player.
#[derive(Clone, Copy, PartialEq, Eq, Structural, Debug, Hash)]
pub enum State {
    Idle,
    Jumping,
    Healing,
    Crouching,
    Falling,
}

/// What the state machine reacts to.
#[derive(Clone, Copy, PartialEq, Eq, Structural, Debug, Hash)]
pub enum Event {
    /// A jump starts, at `event_time` nanoseconds since the game started.
    Jump { event_time: u64 },
    Heal,
    Crouch,
    Land,
    Fall,
}

/// How the character controller is moved vertically this frame.
#[derive(Clone, Copy, PartialEq, Eq, Structural, Debug, Hash)]
pub enum VerticalMotion {
    /// Leave the vertical movement as it is.
    Keep,
    /// Move upwards, as in a jump.
    Rise,
    /// Move downwards, as in a fall.
    Sink,
}

/// The state that an event leads to, whatever the current state.
pub open spec fn target_of(event: Event) -> State {
    match event {
        Event::Jump { .. } => State::Jumping,
        Event::Heal => State::Healing,
        Event::Crouch => State::Crouching,
        Event::Land => State::Idle,
        Event::Fall => State::Falling,
    }
}

/// The player's movement state, with the time of the last jump taken from
/// the idle state.
#[derive(Clone, Copy, PartialEq, Eq, Structural, Debug, Hash)]
pub struct PlayerState {
    pub state: State,
    pub last_jump: Option<u64>,
}

/// `s` is `before` after handling `event`.
pub open spec fn handled(before: PlayerState, event: Event, s: PlayerState) -> bool {
    &&& s.state == target_of(event)
    &&& s.last_jump == match (before.state, event) {
        (State::Idle, Event::Jump { event_time }) => Some(event_time),
        _ => before.last_jump,
    }
}

/// The jump started at `last_jump` has lasted strictly longer than `limit` at
/// `now`.
pub open spec fn lasted_longer(last_jump: Option<u64>, now: u64, limit: u64) -> bool {
    match last_jump {
        Some(t) => now - t > limit,
        None => false,
    }
}

/// `now` is not before the last jump.
pub open spec fn not_before_jump(s: PlayerState, now: u64) -> bool {
    match s.last_jump {
        Some(t) => t <= now,
        None => true,
    }
}

impl Default for PlayerState {
    /// Idle, with no jump yet.
    fn default() -> (s: PlayerState)
        ensures
            s.state == State::Idle,
            s.last_jump.is_none(),
    {
        PlayerState { state: State::Idle, last_jump: None }
    }
}

impl PlayerState {
    /// The current movement state.
    pub fn state(&self) -> (s: State)
        ensures
            s == self.state,
    {
        self.state
    }

    /// Moves to the state that `event` leads to. A jump taken from the idle
    /// state records its time.
    pub fn handle(&mut self, event: &Event)
        ensures
            handled(*old(self), *event, *final(self)),
    {
        if let Event::Jump { event_time } = *event {
            if self.state == State::Idle {
                self.last_jump = Some(event_time);
            }
        }
        self.state =
            match *event {
                Event::Jump { .. } => State::Jumping,
                Event::Heal => State::Healing,
                Event::Crouch => State::Crouching,
                Event::Land => State::Idle,
                Event::Fall => State::Falling,
            };
    }

    /// A jump that has risen for longer than its limit turns into a fall.
    pub fn end_long_jump(&mut self, now: u64)
        requires
            not_before_jump(*old(self), now),
        ensures
            if old(self).state == State::Jumping && lasted_longer(old(self).last_jump, now, MAX_JUMP_NANOS) {
                handled(*old(self), Event::Fall, *final(self))
            } else {
                *final(self) == *old(self)
            },
    {
        if self.state == State::Jumping {
            if let Some(t) = self.last_jump {
                if now - t > MAX_JUMP_NANOS {
                    self.handle(&Event::Fall);
                }
            }
        }
    }

    /// Reacts to the player's input: from the idle state a freshly pressed
    /// jump button starts a jump at `now`; a jump lands when the controller
    /// touches the ground after the takeoff time.
    pub fn react(&mut self, now: u64, jump_just_pressed: bool, grounded: bool)
        requires
            not_before_jump(*old(self), now),
        ensures
            if old(self).state == State::Idle && jump_just_pressed {
                handled(*old(self), Event::Jump { event_time: now }, *final(self))
            } else if old(self).state == State::Jumping && grounded && lasted_longer(
                old(self).last_jump,
                now,
                TAKEOFF_NANOS,
            ) {
                handled(*old(self), Event::Land, *final(self))
            } else {
                *final(self) == *old(self)
            },
    {
        match self.state {
            State::Idle => {
                if jump_just_pressed {
                    self.handle(&Event::Jump { event_time: now });
                }
            },
            State::Jumping => {
                if let Some(t) = self.last_jump {
                    if grounded && now - t > TAKEOFF_NANOS {
                        self.handle(&Event::Land);
                    }
                }
            },
            _ => {},
        }
    }

    /// The jump step of a frame: releasing the jump button starts a fall;
    /// otherwise a jumping player rises.
    pub fn jump_step(&mut self, jump_just_released: bool) -> (m: VerticalMotion)
        ensures
            jump_just_released ==> handled(*old(self), Event::Fall, *final(self)) && m
                == VerticalMotion::Keep,
            !jump_just_released ==> *final(self) == *old(self) && m == if old(self).state
                == State::Jumping {
                VerticalMotion::Rise
            } else {
                VerticalMotion::Keep
            },
    {
        if jump_just_released {
            self.handle(&Event::Fall);
            VerticalMotion::Keep
        } else if self.state == State::Jumping {
            VerticalMotion::Rise
        } else {
            VerticalMotion::Keep
        }
    }

    /// The fall step of a frame: a falling player lands on the ground, or
    /// else keeps sinking.
    pub fn fall_step(&mut self, grounded: bool) -> (m: VerticalMotion)
        ensures
            old(self).state == State::Falling && grounded ==> handled(*old(self), Event::Land, *final(self))
                && m == VerticalMotion::Keep,
            old(self).state == State::Falling && !grounded ==> *final(self) == *old(self) && m
                == VerticalMotion::Sink,
            old(self).state != State::Falling ==> *final(self) == *old(self) && m == VerticalMotion::Keep,
    {
        if self.state == State::Falling {
            if grounded {
                self.handle(&Event::Land);
                VerticalMotion::Keep
            } else {
                VerticalMotion::Sink
            }
        } else {
            VerticalMotion::Keep
        }
    }
}

} // verus!
