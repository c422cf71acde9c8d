//! Gamepad bookkeeping and the player's sprite frames.
use vstd::prelude::*;

verus! {

/// The frame of the sprite sheet shown while standing.
pub const STANDING_FRAME: usize = 0;

/// The frame of the sprite sheet shown at the start of a jump.
pub const JUMP_FRAME: usize = 1;

/// The two frames of the walking animation.
pub const WALK_FRAME_A: usize = 9;

pub const WALK_FRAME_B: usize = 10;

/// A gamepad was connected or disconnected; it carries the gamepad's id.
#[derive(Clone, Copy, PartialEq, Eq, Structural, Debug, Hash)]
pub enum GamepadChange {
    Connected(usize),
    Disconnected(usize),
}

/// The gamepad that drives the player after a change: the first gamepad
/// connected is kept until it is disconnected.
pub fn track_gamepad(current: Option<usize>, change: GamepadChange) -> (r: Option<usize>)
    ensures
        r == match change {
            GamepadChange::Connected(id) => if current.is_none() {
                Some(id)
            } else {
                current
            },
            GamepadChange::Disconnected(id) => if current == Some(id) {
                None
            } else {
                current
            },
        },
{
    match change {
        GamepadChange::Connected(id) => {
            if current.is_none() {
                Some(id)
            } else {
                current
            }
        },
        GamepadChange::Disconnected(id) => {
            match current {
                Some(c) => if c == id {
                    None
                } else {
                    current
                },
                None => None,
            }
        },
    }
}

/// The next frame of the walking animation: it alternates between its two
/// frames, and starts from the first from any other frame.
pub fn next_walk_frame(index: usize) -> (r: usize)
    ensures
        r == if index == WALK_FRAME_A {
            WALK_FRAME_B
        } else {
            WALK_FRAME_A
        },
{
    if index == WALK_FRAME_A {
        WALK_FRAME_B
    } else {
        WALK_FRAME_A
    }
}

/// The sprite frame after the jump button is read: a jump from the ground
/// shows the jump frame, standing on the ground the standing frame, and in
/// the air the frame stays.
pub fn frame_after_jump_input(index: usize, jump_just_pressed: bool, on_ground: bool) -> (r: usize)
    ensures
        r == if on_ground && jump_just_pressed {
            JUMP_FRAME
        } else if on_ground {
            STANDING_FRAME
        } else {
            index
        },
{
    if jump_just_pressed && on_ground {
        JUMP_FRAME
    } else if on_ground {
        STANDING_FRAME
    } else {
        index
    }
}

} // verus!
