use voxelized::camera::{asdw, code, lands, mode, shift, space, Effect, Mode};

#[test]
fn codes_select_modes() {
    assert_eq!(mode(-1), Some(Mode::Autopilot));
    assert_eq!(mode(0), Some(Mode::Fly));
    assert_eq!(mode(1), Some(Mode::Walk));
    assert_eq!(mode(2), Some(Mode::Disabled));
    assert_eq!(mode(3), None);
    assert_eq!(mode(-2), None);
    for m in [Mode::Autopilot, Mode::Fly, Mode::Walk, Mode::Disabled] {
        assert_eq!(mode(code(m)), Some(m));
    }
}

#[test]
fn axes_steer_their_components() {
    assert_eq!(asdw(0), Some(1));
    assert_eq!(asdw(1), Some(2));
    assert_eq!(asdw(2), Some(0));
    assert_eq!(asdw(3), None);
    assert_eq!(asdw(-1), None);
}

#[test]
fn the_dash_key_steers_down_in_fly_mode_and_dashes_in_walk_mode() {
    assert_eq!(shift(0, true), Effect::Vertical(-1));
    assert_eq!(shift(0, false), Effect::Vertical(0));
    assert_eq!(shift(1, true), Effect::Dash(3));
    assert_eq!(shift(1, false), Effect::Dash(1));
    assert_eq!(shift(-1, true), Effect::Nothing);
    assert_eq!(shift(2, true), Effect::Nothing);
}

#[test]
fn the_jump_key_needs_the_ground_in_walk_mode() {
    assert_eq!(space(0, false, true), Effect::Vertical(1));
    assert_eq!(space(0, true, false), Effect::Vertical(0));
    assert_eq!(space(1, true, true), Effect::Jump);
    assert_eq!(space(1, false, true), Effect::Nothing);
    assert_eq!(space(1, true, false), Effect::Nothing);
    assert_eq!(space(-1, true, true), Effect::Nothing);
    assert_eq!(space(2, true, true), Effect::Nothing);
}

#[test]
fn only_a_fall_lands() {
    assert!(lands(1, -1));
    assert!(!lands(1, 1));
    assert!(!lands(0, -1));
    assert!(!lands(2, -1));
}
