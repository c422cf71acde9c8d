use platformer::actions::PlatformerAction;
use platformer::gamepad::{frame_after_jump_input, next_walk_frame, track_gamepad, GamepadChange};
use platformer::systems::{axis, climbing_after, next_patrol_stop};
use platformer::GameState;

#[test]
fn axis_from_two_buttons() {
    assert_eq!(axis(true, false), 1);
    assert_eq!(axis(false, true), -1);
    assert_eq!(axis(true, true), 0);
    assert_eq!(axis(false, false), 0);
}

#[test]
fn climbing_needs_a_ladder() {
    assert!(!climbing_after(true, false, true, false));
    assert!(climbing_after(false, true, true, false));
    assert!(climbing_after(true, true, false, false));
    assert!(!climbing_after(false, true, false, false));
    assert!(!climbing_after(true, true, true, true));
}

#[test]
fn patrol_turns_at_the_ends() {
    assert_eq!(next_patrol_stop(0, false, 3), (1, true));
    assert_eq!(next_patrol_stop(1, true, 3), (2, true));
    assert_eq!(next_patrol_stop(2, true, 3), (1, false));
    assert_eq!(next_patrol_stop(1, false, 3), (0, false));
    assert_eq!(next_patrol_stop(1, true, 2), (0, false));
}

#[test]
fn first_gamepad_is_kept() {
    assert_eq!(track_gamepad(None, GamepadChange::Connected(3)), Some(3));
    assert_eq!(track_gamepad(Some(3), GamepadChange::Connected(4)), Some(3));
    assert_eq!(track_gamepad(Some(3), GamepadChange::Disconnected(4)), Some(3));
    assert_eq!(track_gamepad(Some(3), GamepadChange::Disconnected(3)), None);
    assert_eq!(track_gamepad(None, GamepadChange::Disconnected(3)), None);
}

#[test]
fn walk_animation_alternates() {
    assert_eq!(next_walk_frame(9), 10);
    assert_eq!(next_walk_frame(10), 9);
    assert_eq!(next_walk_frame(0), 9);
    assert_eq!(next_walk_frame(1), 9);
}

#[test]
fn sprite_frame_after_jump_input() {
    assert_eq!(frame_after_jump_input(9, true, true), 1);
    assert_eq!(frame_after_jump_input(9, false, true), 0);
    assert_eq!(frame_after_jump_input(9, true, false), 9);
    assert_eq!(frame_after_jump_input(1, false, false), 1);
}

#[test]
fn actions_and_states_compare() {
    assert_eq!(PlatformerAction::Jump, PlatformerAction::Jump);
    assert_ne!(PlatformerAction::Left, PlatformerAction::Right);
    assert_ne!(GameState::AssetLoading, GameState::Playing);
}
