//! The camera's modes and what its keys mean in each of them.
//!
//! The camera's position, velocity and angles are real numbers and stay
//! with the caller. What is decided here are the rules that do not depend
//! on them: which mode a code selects, which component of the direction an
//! axis steers, what the dash and jump keys do, and when a collision puts
//! the camera on the ground.

use vstd::prelude::*;

verus! {

/// The code of the autopilot mode.
pub const AUTOPILOT: i32 = -1;

/// The code of the fly mode.
pub const FLY: i32 = 0;

/// The code of the walk mode.
pub const WALK: i32 = 1;

/// The code of the disabled mode.
pub const DISABLED: i32 = 2;

/// The dash factor while the dash key is held in walk mode.
pub const DASH: i32 = 3;

/// A mode of the camera.
#[derive(Clone, Copy, Debug, PartialEq, Eq, Structural)]
pub enum Mode {
    /// The camera drifts along +x and takes no input.
    Autopilot,
    /// The camera moves freely, without gravity or collision.
    Fly,
    /// The camera walks: gravity pulls it down and voxels stop it.
    Walk,
    /// The camera takes neither ticks nor input.
    Disabled,
}

/// What a key does to the camera.
#[derive(Clone, Copy, Debug, PartialEq, Eq, Structural)]
pub enum Effect {
    /// Nothing.
    Nothing,
    /// The vertical component of the direction is set to this value.
    Vertical(i32),
    /// The dash factor is set to this value.
    Dash(i32),
    /// The vertical velocity is set to the jump speed.
    Jump,
}

/// The mode that the code `code` selects, if it selects one.
pub open spec fn mode_of(code: int) -> Option<Mode> {
    if code == AUTOPILOT {
        Some(Mode::Autopilot)
    } else if code == FLY {
        Some(Mode::Fly)
    } else if code == WALK {
        Some(Mode::Walk)
    } else if code == DISABLED {
        Some(Mode::Disabled)
    } else {
        None
    }
}

/// The mode that the code `code` selects; `None` for a code of no mode.
pub fn mode(code: i32) -> (r: Option<Mode>)
    ensures
        r == mode_of(code as int),
{
    if code == AUTOPILOT {
        Some(Mode::Autopilot)
    } else if code == FLY {
        Some(Mode::Fly)
    } else if code == WALK {
        Some(Mode::Walk)
    } else if code == DISABLED {
        Some(Mode::Disabled)
    } else {
        None
    }
}

/// The code of the mode `m`.
pub fn code(m: Mode) -> (r: i32)
    ensures
        mode_of(r as int) == Some(m),
{
    match m {
        Mode::Autopilot => AUTOPILOT,
        Mode::Fly => FLY,
        Mode::Walk => WALK,
        Mode::Disabled => DISABLED,
    }
}

/// The component of the direction that the input axis `axis` steers: axis
/// 0 steers the vertical component 1, axis 1 the forward component 2, axis
/// 2 the sideways component 0. Another axis steers nothing.
pub fn asdw(axis: i32) -> (r: Option<usize>)
    ensures
        r == if axis == 0 {
            Some(1usize)
        } else if axis == 1 {
            Some(2usize)
        } else if axis == 2 {
            Some(0usize)
        } else {
            None
        },
{
    if axis == 0 {
        Some(1)
    } else if axis == 1 {
        Some(2)
    } else if axis == 2 {
        Some(0)
    } else {
        None
    }
}

/// What the dash key does in the mode with the code `code`: in fly mode it
/// steers down while it is held; in walk mode it sets the dash factor, 3
/// while it is held and 1 when it is let go; in another mode it does
/// nothing.
pub fn shift(code: i32, pressed: bool) -> (r: Effect)
    ensures
        r == if code == FLY {
            Effect::Vertical(
                if pressed {
                    -1i32
                } else {
                    0i32
                },
            )
        } else if code == WALK {
            Effect::Dash(
                if pressed {
                    DASH
                } else {
                    1i32
                },
            )
        } else {
            Effect::Nothing
        },
{
    if code == FLY {
        Effect::Vertical(if pressed { -1 } else { 0 })
    } else if code == WALK {
        Effect::Dash(if pressed { DASH } else { 1 })
    } else {
        Effect::Nothing
    }
}

/// What the jump key does in the mode with the code `code`: in fly mode it
/// steers up while it is held; in walk mode it makes the camera jump when
/// it is pressed while the camera stands on the ground; else it does
/// nothing.
pub fn space(code: i32, grounded: bool, pressed: bool) -> (r: Effect)
    ensures
        r == if code == FLY {
            Effect::Vertical(
                if pressed {
                    1i32
                } else {
                    0i32
                },
            )
        } else if code == WALK && grounded && pressed {
            Effect::Jump
        } else {
            Effect::Nothing
        },
{
    if code == FLY {
        Effect::Vertical(if pressed { 1 } else { 0 })
    } else if code == WALK && grounded && pressed {
        Effect::Jump
    } else {
        Effect::Nothing
    }
}

/// Whether a collision on the axis `axis`, met while moving in the
/// direction of the sign `sign`, puts the camera on the ground: it does
/// when the camera was moving down.
pub fn lands(axis: i32, sign: i32) -> (r: bool)
    ensures
        r == (axis == 1 && sign < 0),
{
    axis == 1 && sign < 0
}

} // verus!
