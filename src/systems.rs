//! Decisions taken by the per-frame systems of the game, on plain values: the
//! engine reads the inputs and applies the results.
use vstd::prelude::*;

verus! {

/// The speed, in pixels per second, of walking and climbing.
pub const WALK_SPEED: i32 = 200;

/// The vertical speed, in pixels per second, given by a jump.
pub const JUMP_SPEED: i32 = 900;

/// The direction along one axis chosen by two buttons: `1` for the positive
/// one alone, `-1` for the negative one alone, `0` for both or neither.
pub fn axis(positive: bool, negative: bool) -> (d: i32)
    ensures
        d == (if positive { 1int } else { 0int }) - (if negative { 1int } else { 0int }),
{
    let p: i32 = if positive { 1 } else { 0 };
    let n: i32 = if negative { 1 } else { 0 };
    p - n
}

/// Whether the player climbs after this frame: never away from every ladder;
/// pressing up or down on a ladder starts climbing; a jump from the ground
/// stops it.
pub fn climbing_after(
    climbing: bool,
    touching_climbable: bool,
    up_or_down_just_pressed: bool,
    jumps_from_ground: bool,
) -> (c: bool)
    ensures
        c == (!jumps_from_ground && touching_climbable && (climbing || up_or_down_just_pressed)),
{
    let mut c = climbing;
    if !touching_climbable {
        c = false;
    } else if up_or_down_just_pressed {
        c = true;
    }
    if jumps_from_ground {
        c = false;
    }
    c
}

/// The patrol point that a patrolling enemy heads for after reaching the point
/// `index` of its `len` points, and whether it then goes forward: it turns
/// around at either end of its route.
pub fn next_patrol_stop(index: usize, forward: bool, len: usize) -> (r: (usize, bool))
    requires
        2 <= len,
        index < len,
    ensures
        r.1 == (index == 0 || (index != len - 1 && forward)),
        r.0 == if r.1 { index + 1 } else { index - 1 },
        r.0 < len,
{
    let mut f = forward;
    if index == 0 {
        f = true;
    } else if index == len - 1 {
        f = false;
    }
    if f {
        (index + 1, f)
    } else {
        (index - 1, f)
    }
}

} // verus!
