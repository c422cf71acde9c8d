use platformer::movement::{Event, PlayerState, State, VerticalMotion, MAX_JUMP_NANOS, TAKEOFF_NANOS};

fn in_state(state: State, last_jump: Option<u64>) -> PlayerState {
    PlayerState { state, last_jump }
}

#[test]
fn starts_idle_without_a_jump() {
    let s = PlayerState::default();
    assert_eq!(s.state(), State::Idle);
    assert_eq!(s.last_jump, None);
}

#[test]
fn every_event_leads_to_its_state() {
    let all = [State::Idle, State::Jumping, State::Healing, State::Crouching, State::Falling];
    for from in all {
        for (event, to) in [
            (Event::Jump { event_time: 7 }, State::Jumping),
            (Event::Heal, State::Healing),
            (Event::Crouch, State::Crouching),
            (Event::Land, State::Idle),
            (Event::Fall, State::Falling),
        ] {
            let mut s = in_state(from, Some(3));
            s.handle(&event);
            assert_eq!(s.state, to);
        }
    }
}

#[test]
fn only_a_jump_from_idle_records_its_time() {
    let mut s = in_state(State::Idle, None);
    s.handle(&Event::Jump { event_time: 42 });
    assert_eq!(s, in_state(State::Jumping, Some(42)));
    s.handle(&Event::Jump { event_time: 99 });
    assert_eq!(s, in_state(State::Jumping, Some(42)));
    let mut h = in_state(State::Healing, Some(5));
    h.handle(&Event::Jump { event_time: 77 });
    assert_eq!(h, in_state(State::Jumping, Some(5)));
}

#[test]
fn long_jump_turns_into_a_fall() {
    let mut s = in_state(State::Jumping, Some(1_000));
    s.end_long_jump(1_000 + MAX_JUMP_NANOS);
    assert_eq!(s.state, State::Jumping);
    s.end_long_jump(1_000 + MAX_JUMP_NANOS + 1);
    assert_eq!(s, in_state(State::Falling, Some(1_000)));
    let mut idle = in_state(State::Idle, Some(0));
    idle.end_long_jump(u64::MAX);
    assert_eq!(idle, in_state(State::Idle, Some(0)));
}

#[test]
fn jump_button_starts_a_jump_from_idle() {
    let mut s = PlayerState::default();
    s.react(500, false, true);
    assert_eq!(s, PlayerState::default());
    s.react(600, true, true);
    assert_eq!(s, in_state(State::Jumping, Some(600)));
}

#[test]
fn landing_waits_for_the_takeoff() {
    let mut s = in_state(State::Jumping, Some(100));
    s.react(100 + TAKEOFF_NANOS, false, true);
    assert_eq!(s.state, State::Jumping);
    s.react(100 + TAKEOFF_NANOS + 1, false, false);
    assert_eq!(s.state, State::Jumping);
    s.react(100 + TAKEOFF_NANOS + 1, false, true);
    assert_eq!(s, in_state(State::Idle, Some(100)));
}

#[test]
fn releasing_jump_starts_a_fall() {
    let mut s = in_state(State::Jumping, Some(0));
    assert_eq!(s.jump_step(false), VerticalMotion::Rise);
    assert_eq!(s.state, State::Jumping);
    assert_eq!(s.jump_step(true), VerticalMotion::Keep);
    assert_eq!(s.state, State::Falling);
    let mut idle = PlayerState::default();
    assert_eq!(idle.jump_step(false), VerticalMotion::Keep);
    assert_eq!(idle.state, State::Idle);
}

#[test]
fn falling_sinks_until_grounded() {
    let mut s = in_state(State::Falling, Some(0));
    assert_eq!(s.fall_step(false), VerticalMotion::Sink);
    assert_eq!(s.state, State::Falling);
    assert_eq!(s.fall_step(true), VerticalMotion::Keep);
    assert_eq!(s.state, State::Idle);
    let mut crouching = in_state(State::Crouching, None);
    assert_eq!(crouching.fall_step(false), VerticalMotion::Keep);
    assert_eq!(crouching.state, State::Crouching);
}
