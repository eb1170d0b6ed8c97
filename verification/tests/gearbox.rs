use web_3d_car::camera::CamMode;
use web_3d_car::drivetrain::{AutoShiftInputs, Drivetrain, Mode, RatioSlot};

fn idle() -> AutoShiftInputs {
    AutoShiftInputs {
        throttle_released: true,
        throttle_pressed: false,
        brake_pressed: false,
        wheels_slow: true,
        shift_ready: true,
        over_rev: false,
        under_rev: false,
    }
}

#[test]
fn camera_modes_cycle_by_three() {
    assert_eq!(CamMode::from_u32(0), CamMode::Chase);
    assert_eq!(CamMode::from_u32(1), CamMode::Hood);
    assert_eq!(CamMode::from_u32(2), CamMode::Orbit);
    assert_eq!(CamMode::from_u32(3), CamMode::Chase);
    assert_eq!(CamMode::from_u32(7), CamMode::Hood);
    assert_eq!(CamMode::from_u32(u32::MAX), CamMode::Chase);
}

#[test]
fn new_driveline_is_auto_in_first() {
    let d = Drivetrain::new();
    assert_eq!(d.gear, 1);
    assert_eq!(d.mode, Mode::Auto);
    assert!(!d.auto_reversing());
}

#[test]
fn entering_manual_drops_to_neutral_then_shifts_up_to_first() {
    let mut d = Drivetrain::new();
    d.set_manual(true);
    assert_eq!(d.gear, 0);
    assert_eq!(d.mode, Mode::Manual);
    d.shift_up();
    assert_eq!(d.gear, 1);
}

#[test]
fn manual_downshift_from_neutral_selects_reverse() {
    let mut d = Drivetrain::new();
    d.set_manual(true);
    d.shift_down();
    assert_eq!(d.gear, -1);
    assert_eq!(d.ratio_slot(), RatioSlot::Reverse);
    d.shift_down();
    assert_eq!(d.gear, -1, "no gear below reverse");
}

#[test]
fn manual_sequence_saturates_at_sixth() {
    let mut d = Drivetrain::new();
    d.set_manual(true);
    for _ in 0..10 {
        d.shift_up();
    }
    assert_eq!(d.gear, 6);
    assert_eq!(d.ratio_slot(), RatioSlot::Forward(5));
}

#[test]
fn shifting_is_ignored_in_auto() {
    let mut d = Drivetrain::new();
    d.shift_up();
    assert_eq!(d.gear, 1);
    d.shift_down();
    assert_eq!(d.gear, 1);
}

#[test]
fn toggle_switches_mode_and_gear() {
    let mut d = Drivetrain::new();
    d.toggle_manual();
    assert_eq!((d.mode, d.gear), (Mode::Manual, 0));
    d.shift_up();
    d.shift_up();
    d.toggle_manual();
    assert_eq!((d.mode, d.gear), (Mode::Auto, 1));
    d.set_manual(false);
    assert_eq!((d.mode, d.gear), (Mode::Auto, 1));
}

#[test]
fn reset_returns_to_mode_start_gear() {
    let mut d = Drivetrain::new();
    d.set_manual(true);
    d.shift_up();
    d.shift_up();
    d.reset();
    assert_eq!(d.gear, 0);
    let mut a = Drivetrain::new();
    a.gear = 4;
    a.reset();
    assert_eq!(a.gear, 1);
}

#[test]
fn auto_brake_at_standstill_selects_reverse() {
    let mut d = Drivetrain::new();
    let inp = AutoShiftInputs { brake_pressed: true, ..idle() };
    let shifted = d.select_gear(inp);
    assert!(!shifted);
    assert_eq!(d.gear, -1);
    assert!(d.auto_reversing());
    // Throttle returns to first.
    let inp = AutoShiftInputs { throttle_released: false, throttle_pressed: true, ..idle() };
    d.select_gear(inp);
    assert_eq!(d.gear, 1);
}

#[test]
fn auto_never_idles_in_neutral() {
    let mut d = Drivetrain { gear: 0, mode: Mode::Auto };
    d.select_gear(idle());
    assert_eq!(d.gear, 1);
}

#[test]
fn auto_upshifts_and_downshifts_one_gear_on_rpm() {
    let mut d = Drivetrain { gear: 3, mode: Mode::Auto };
    let up = AutoShiftInputs { throttle_released: false, throttle_pressed: true, over_rev: true, ..idle() };
    assert!(d.select_gear(up));
    assert_eq!(d.gear, 4);
    // Cooldown running: no shift.
    let cooling = AutoShiftInputs { shift_ready: false, ..up };
    assert!(!d.select_gear(cooling));
    assert_eq!(d.gear, 4);
    let down = AutoShiftInputs { throttle_released: false, throttle_pressed: true, under_rev: true, ..idle() };
    assert!(d.select_gear(down));
    assert_eq!(d.gear, 3);
    let mut top = Drivetrain { gear: 6, mode: Mode::Auto };
    assert!(!top.select_gear(up));
    assert_eq!(top.gear, 6);
    let mut first = Drivetrain { gear: 1, mode: Mode::Auto };
    assert!(!first.select_gear(down));
    assert_eq!(first.gear, 1);
}

#[test]
fn manual_select_gear_keeps_the_gear() {
    let mut d = Drivetrain { gear: 0, mode: Mode::Manual };
    let inp = AutoShiftInputs { brake_pressed: true, over_rev: true, ..idle() };
    assert!(!d.select_gear(inp));
    assert_eq!(d.gear, 0);
    assert_eq!(d.ratio_slot(), RatioSlot::Neutral);
}
