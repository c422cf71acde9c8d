use vstd::prelude::*;

pub mod actions;
pub mod gamepad;
pub mod movement;
pub mod systems;
pub mod walls;

verus! {

/// The two phases of the game: assets are loaded first, then the level is played.
#[derive(Clone, Copy, PartialEq, Eq, Structural, Debug, Hash)]
pub enum GameState {
    AssetLoading,
    Playing,
}

} // verus!
