use vstd::prelude::*;

verus! {

/// The abstract input actions that the player can trigger, independent of
/// the keyboard key or gamepad button bound to them.
#[derive(Clone, Copy, PartialEq, Eq, Structural, Debug, Hash)]
pub enum PlatformerAction {
    Right,
    Left,
    Down,
    Up,
    Horizontal,
    Jump,
    Heal,
    Dash,
    Pause,
    Menus,
}

} // verus!
