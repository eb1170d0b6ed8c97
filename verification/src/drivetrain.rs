//! Gear selection of the driveline: the gearbox mode (automatic or manual) and
//! the selected gear, -1 = reverse, 0 = neutral, 1..=6 forward.
//!
//! The engine, clutch and torque dynamics are floating-point and are driven by
//! the caller; every change of gear goes through the functions here, which
//! keep the gear inside the box and encode the shift rules: sequential manual
//! shifting through R-N-1..6, neutral on entering manual, first on entering
//! automatic, and the automatic brake-to-reverse and rpm-threshold shifts.

use vstd::prelude::*;

verus! {

/// Lowest gear (reverse).
pub const REVERSE: i32 = -1;

/// Neutral.
pub const NEUTRAL: i32 = 0;

/// Highest forward gear.
pub const TOP_GEAR: i32 = 6;

/// Gearbox mode.
#[derive(Clone, Copy, Debug, PartialEq, Eq, Structural)]
pub enum Mode {
    /// Auto-shift, auto-clutch, brake-to-reverse.
    Auto,
    /// Player clutch and sequential shifting.
    Manual,
}

/// Which ratio the current gear engages.
#[derive(Clone, Copy, Debug, PartialEq, Eq, Structural)]
pub enum RatioSlot {
    /// The reverse ratio (negative drive).
    Reverse,
    /// No ratio: nothing is transmitted.
    Neutral,
    /// Forward ratio number `i` (0-based) of the six forward ratios.
    Forward(usize),
}

/// The conditions that one automatic-mode substep reads, each already
/// evaluated against its threshold by the caller.
#[derive(Clone, Copy, Debug)]
pub struct AutoShiftInputs {
    /// Throttle below the pedal dead zone.
    pub throttle_released: bool,
    /// Throttle above the pedal dead zone.
    pub throttle_pressed: bool,
    /// Brake above the pedal dead zone.
    pub brake_pressed: bool,
    /// Driven wheels (nearly) stopped.
    pub wheels_slow: bool,
    /// The shift cooldown has run out.
    pub shift_ready: bool,
    /// Engine above the upshift rpm.
    pub over_rev: bool,
    /// Engine below the downshift rpm.
    pub under_rev: bool,
}

/// The gear-selection state of a driveline.
#[derive(Clone, Copy, Debug)]
pub struct Drivetrain {
    /// -1 = reverse, 0 = neutral, 1..=6 forward.
    pub gear: i32,
    pub mode: Mode,
}

/// A gear that the box has.
pub open spec fn valid_gear(g: i32) -> bool {
    REVERSE <= g <= TOP_GEAR
}

/// State after entering (`on`) or leaving manual mode.
pub open spec fn set_manual_spec(d: Drivetrain, on: bool) -> Drivetrain {
    let want = if on { Mode::Manual } else { Mode::Auto };
    if want != d.mode {
        Drivetrain { gear: if on { NEUTRAL } else { 1 }, mode: want }
    } else {
        d
    }
}

/// State after toggling the mode.
pub open spec fn toggle_spec(d: Drivetrain) -> Drivetrain {
    set_manual_spec(d, d.mode == Mode::Auto)
}

/// State after a sequential upshift request.
pub open spec fn shift_up_spec(d: Drivetrain) -> Drivetrain {
    if d.mode == Mode::Manual && d.gear < TOP_GEAR {
        Drivetrain { gear: (d.gear + 1) as i32, mode: d.mode }
    } else {
        d
    }
}

/// State after a sequential downshift request.
pub open spec fn shift_down_spec(d: Drivetrain) -> Drivetrain {
    if d.mode == Mode::Manual && d.gear > REVERSE {
        Drivetrain { gear: (d.gear - 1) as i32, mode: d.mode }
    } else {
        d
    }
}

/// State after a reset: the mode stays, manual goes to neutral, auto to first.
pub open spec fn reset_spec(d: Drivetrain) -> Drivetrain {
    Drivetrain { gear: if d.mode == Mode::Manual { NEUTRAL } else { 1 }, mode: d.mode }
}

/// Automatic mode, first rule: brake at a standstill with the throttle
/// released engages reverse; throttle while in reverse returns to first.
pub open spec fn auto_direction(g: i32, inp: AutoShiftInputs) -> i32 {
    if g >= 0 && inp.throttle_released && inp.brake_pressed && inp.wheels_slow {
        REVERSE
    } else if g == REVERSE && inp.throttle_pressed {
        1
    } else {
        g
    }
}

/// Automatic mode, second rule: the box never idles in neutral.
pub open spec fn auto_no_neutral(g: i32) -> i32 {
    if g == NEUTRAL { 1 } else { g }
}

/// Automatic mode, third rule: when the cooldown allows, a forward gear moves
/// up one above the upshift rpm (below top gear) or down one below the
/// downshift rpm (above first). Returns the gear and whether it shifted.
pub open spec fn auto_rpm_shift(g: i32, inp: AutoShiftInputs) -> (i32, bool) {
    if g >= 1 && inp.shift_ready {
        if inp.over_rev && g < TOP_GEAR {
            ((g + 1) as i32, true)
        } else if inp.under_rev && g > 1 {
            ((g - 1) as i32, true)
        } else {
            (g, false)
        }
    } else {
        (g, false)
    }
}

/// One automatic-mode gear decision: the three rules in turn.
pub open spec fn auto_select_spec(g: i32, inp: AutoShiftInputs) -> (i32, bool) {
    auto_rpm_shift(auto_no_neutral(auto_direction(g, inp)), inp)
}

/// The gear decision of one driveline substep: in automatic mode the three
/// rules above, in manual mode the gear stays.
pub open spec fn select_gear_spec(d: Drivetrain, inp: AutoShiftInputs) -> (Drivetrain, bool) {
    if d.mode == Mode::Auto {
        let (g, shifted) = auto_select_spec(d.gear, inp);
        (Drivetrain { gear: g, mode: d.mode }, shifted)
    } else {
        (d, false)
    }
}

/// The ratio that gear `g` engages.
pub open spec fn ratio_slot_spec(g: i32) -> RatioSlot {
    if g == REVERSE {
        RatioSlot::Reverse
    } else if g == NEUTRAL {
        RatioSlot::Neutral
    } else {
        RatioSlot::Forward((g - 1) as usize)
    }
}

impl Drivetrain {
    /// The gear lies in R..=6.
    pub open spec fn wf(&self) -> bool {
        valid_gear(self.gear)
    }

    /// A new driveline: automatic, in first.
    pub fn new() -> (d: Drivetrain)
        ensures
            d.gear == 1,
            d.mode == Mode::Auto,
            d.wf(),
    {
        Drivetrain { gear: 1, mode: Mode::Auto }
    }

    /// Back to the starting gear of the current mode (neutral in manual, first
    /// in automatic).
    pub fn reset(&mut self)
        ensures
            *final(self) == reset_spec(*old(self)),
            final(self).wf(),
    {
        self.gear = if self.mode == Mode::Manual { NEUTRAL } else { 1 };
    }

    /// Enter (`on`) or leave manual mode. Entering manual drops to neutral so the
    /// player selects a gear; entering automatic engages first. Asking for the
    /// current mode changes nothing.
    pub fn set_manual(&mut self, on: bool)
        ensures
            *final(self) == set_manual_spec(*old(self), on),
            old(self).wf() ==> final(self).wf(),
    {
        let want = if on { Mode::Manual } else { Mode::Auto };
        if want != self.mode {
            self.mode = want;
            self.gear = if on { NEUTRAL } else { 1 };
        }
    }

    /// Switch between automatic and manual.
    pub fn toggle_manual(&mut self)
        ensures
            *final(self) == toggle_spec(*old(self)),
            final(self).mode != old(self).mode,
            old(self).wf() ==> final(self).wf(),
    {
        let on = self.mode == Mode::Auto;
        self.set_manual(on);
    }

    /// Sequential upshift (R -> N -> 1 -> .. -> 6); manual mode only, and not
    /// past top gear. Otherwise nothing changes.
    pub fn shift_up(&mut self)
        ensures
            *final(self) == shift_up_spec(*old(self)),
            old(self).wf() ==> final(self).wf(),
    {
        if self.mode == Mode::Manual && self.gear < TOP_GEAR {
            self.gear = self.gear + 1;
        }
    }

    /// Sequential downshift (6 -> .. -> 1 -> N -> R); manual mode only, and not
    /// below reverse. Otherwise nothing changes.
    pub fn shift_down(&mut self)
        ensures
            *final(self) == shift_down_spec(*old(self)),
            old(self).wf() ==> final(self).wf(),
    {
        if self.mode == Mode::Manual && self.gear > REVERSE {
            self.gear = self.gear - 1;
        }
    }

    /// True when automatic mode is driving in reverse: the brake pedal then acts
    /// as reverse throttle and the friction brakes are released.
    pub fn auto_reversing(&self) -> (r: bool)
        ensures
            r == (self.mode == Mode::Auto && self.gear == REVERSE),
    {
        self.mode == Mode::Auto && self.gear == REVERSE
    }

    /// The gear decision of one substep. In automatic mode: brake-to-reverse at
    /// a standstill, throttle back to first, no neutral, then the rpm shifts.
    /// Returns whether an rpm shift happened (the caller then starts the shift
    /// cooldown and the declutch window). Manual mode leaves the gear alone.
    pub fn select_gear(&mut self, inp: AutoShiftInputs) -> (shifted: bool)
        ensures
            (*final(self), shifted) == select_gear_spec(*old(self), inp),
            old(self).wf() ==> final(self).wf(),
            final(self).mode == Mode::Auto ==> final(self).gear != NEUTRAL,
    {
        if self.mode == Mode::Manual {
            return false;
        }
        if self.gear >= 0 && inp.throttle_released && inp.brake_pressed && inp.wheels_slow {
            self.gear = REVERSE;
        } else if self.gear == REVERSE && inp.throttle_pressed {
            self.gear = 1;
        }
        if self.gear == NEUTRAL {
            self.gear = 1;
        }
        if self.gear >= 1 && inp.shift_ready {
            if inp.over_rev && self.gear < TOP_GEAR {
                self.gear = self.gear + 1;
                return true;
            } else if inp.under_rev && self.gear > 1 {
                self.gear = self.gear - 1;
                return true;
            }
        }
        false
    }

    /// The ratio the current gear engages: reverse, none (neutral), or forward
    /// ratio `gear - 1`, always one of the six.
    pub fn ratio_slot(&self) -> (s: RatioSlot)
        requires
            self.wf(),
        ensures
            s == ratio_slot_spec(self.gear),
            s matches RatioSlot::Forward(i) ==> i < 6,
    {
        if self.gear == REVERSE {
            RatioSlot::Reverse
        } else if self.gear == NEUTRAL {
            RatioSlot::Neutral
        } else {
            RatioSlot::Forward((self.gear - 1) as usize)
        }
    }
}

/// Toggling the mode twice returns to the same mode.
pub proof fn lemma_toggle_twice(d: Drivetrain)
    ensures
        toggle_spec(toggle_spec(d)).mode == d.mode,
{
}

/// In manual mode an upshift below top gear is undone by a downshift.
pub proof fn lemma_shift_up_down(d: Drivetrain)
    requires
        d.mode == Mode::Manual,
        d.wf(),
        d.gear < TOP_GEAR,
    ensures
        shift_down_spec(shift_up_spec(d)) == d,
{
}

/// In manual mode a downshift above reverse is undone by an upshift.
pub proof fn lemma_shift_down_up(d: Drivetrain)
    requires
        d.mode == Mode::Manual,
        d.wf(),
        d.gear > REVERSE,
    ensures
        shift_up_spec(shift_down_spec(d)) == d,
{
}

/// The manual shift sequence is R -> N -> 1 -> .. -> 6: seven upshifts from
/// reverse reach top gear, and further upshifts stay there.
pub proof fn lemma_manual_sequence()
    ensures
        ({
            let r = Drivetrain { gear: REVERSE, mode: Mode::Manual };
            let n = shift_up_spec(r);
            let g1 = shift_up_spec(n);
            let g6 = shift_up_spec(shift_up_spec(shift_up_spec(shift_up_spec(shift_up_spec(g1)))));
            &&& n.gear == NEUTRAL
            &&& g1.gear == 1
            &&& g6.gear == TOP_GEAR
            &&& shift_up_spec(g6) == g6
            &&& shift_down_spec(r) == r
        }),
{
}

/// In automatic mode the sequential shift requests do nothing.
pub proof fn lemma_auto_ignores_shifts(d: Drivetrain)
    requires
        d.mode == Mode::Auto,
    ensures
        shift_up_spec(d) == d,
        shift_down_spec(d) == d,
{
}

/// Brake-to-reverse: in automatic mode, in a forward gear or neutral, with the
/// throttle released, the brake pressed and the wheels stopped, the box
/// selects reverse and the brake pedal then drives the car backwards.
pub proof fn lemma_brake_to_reverse(d: Drivetrain, inp: AutoShiftInputs)
    requires
        d.mode == Mode::Auto,
        d.gear >= 0,
        inp.throttle_released,
        inp.brake_pressed,
        inp.wheels_slow,
    ensures
        select_gear_spec(d, inp).0.gear == REVERSE,
        !select_gear_spec(d, inp).1,
{
}

/// An automatic rpm shift moves one gear at a time and stays among the
/// forward gears.
pub proof fn lemma_auto_shift_steps(d: Drivetrain, inp: AutoShiftInputs)
    requires
        d.mode == Mode::Auto,
        d.wf(),
        select_gear_spec(d, inp).1,
    ensures
        ({
            let g = auto_no_neutral(auto_direction(d.gear, inp));
            let g2 = select_gear_spec(d, inp).0.gear;
            &&& 1 <= g2 <= TOP_GEAR
            &&& (g2 == g + 1 || g2 == g - 1)
        }),
{
}

/// Reverse is engaged only by braking at a standstill: in automatic mode,
/// from neutral or a forward gear, the selected gear is reverse only if the
/// throttle is released, the brake is pressed and the wheels are slow.
pub proof fn lemma_reverse_needs_standstill_brake(d: Drivetrain, inp: AutoShiftInputs)
    requires
        d.mode == Mode::Auto,
        d.gear >= 0,
        select_gear_spec(d, inp).0.gear == REVERSE,
    ensures
        inp.throttle_released,
        inp.brake_pressed,
        inp.wheels_slow,
{
}

/// Braking while moving leaves the gear alone: in automatic mode, in a
/// forward gear, when the brake-to-reverse condition does not hold and no
/// rpm shift is due (cooldown running, or the rpm inside the band), the gear
/// and the mode are kept and no shift is reported.
pub proof fn lemma_auto_keeps_forward_gear(d: Drivetrain, inp: AutoShiftInputs)
    requires
        d.mode == Mode::Auto,
        1 <= d.gear <= TOP_GEAR,
        !(inp.throttle_released && inp.brake_pressed && inp.wheels_slow),
        !inp.shift_ready || (!inp.over_rev && !inp.under_rev),
    ensures
        select_gear_spec(d, inp) == (d, false),
{
}

/// Reverse is left only by the throttle: in automatic mode in reverse, the
/// gear stays reverse unless the throttle is pressed, and then it is first.
pub proof fn lemma_auto_leaves_reverse_by_throttle(d: Drivetrain, inp: AutoShiftInputs)
    requires
        d.mode == Mode::Auto,
        d.gear == REVERSE,
    ensures
        !inp.throttle_pressed ==> select_gear_spec(d, inp).0.gear == REVERSE,
        inp.throttle_pressed && !inp.shift_ready ==> select_gear_spec(d, inp).0.gear == 1,
        inp.throttle_pressed ==> 1 <= select_gear_spec(d, inp).0.gear <= 2,
{
}

/// Each gear engages its own ratio: reverse the reverse ratio, neutral none,
/// first gear forward ratio 0, and every upshift among the forward gears the
/// next forward ratio, up to ratio 5 in top gear; different gears never share
/// a ratio.
pub proof fn lemma_ratio_slots(g1: i32, g2: i32)
    ensures
        ratio_slot_spec(REVERSE) == RatioSlot::Reverse,
        ratio_slot_spec(NEUTRAL) == RatioSlot::Neutral,
        ratio_slot_spec(1) == RatioSlot::Forward(0),
        ratio_slot_spec(TOP_GEAR) == RatioSlot::Forward(5),
        1 <= g1 < TOP_GEAR ==> (ratio_slot_spec(g1) matches RatioSlot::Forward(i) && ratio_slot_spec(
            (g1 + 1) as i32,
        ) == RatioSlot::Forward((i + 1) as usize)),
        valid_gear(g1) && valid_gear(g2) && g1 != g2 ==> ratio_slot_spec(g1) != ratio_slot_spec(g2),
{
}

/// A reset keeps the mode and puts the box in the gear that entering that
/// mode selects: neutral in manual, first in automatic.
pub proof fn lemma_reset_is_mode_entry_gear(d: Drivetrain, g: i32)
    ensures
        reset_spec(d).mode == d.mode,
        reset_spec(d).gear == set_manual_spec(
            Drivetrain { gear: g, mode: if d.mode == Mode::Manual { Mode::Auto } else { Mode::Manual } },
            d.mode == Mode::Manual,
        ).gear,
        reset_spec(d).gear == if d.mode == Mode::Manual { NEUTRAL } else { 1 },
        valid_gear(reset_spec(d).gear),
{
}

} // verus!
