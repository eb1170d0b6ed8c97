//! Camera modes, selected by the integer the renderer passes in each frame.

use vstd::prelude::*;

verus! {

/// The three camera modes, cycled in this order (chase -> hood -> orbit).
#[derive(Clone, Copy, Debug, PartialEq, Eq, Structural)]
pub enum CamMode {
    Chase,
    Hood,
    Orbit,
}

/// The mode that the integer `v` selects: its remainder modulo 3.
pub open spec fn cam_mode_of(v: u32) -> CamMode {
    if v % 3 == 0 {
        CamMode::Chase
    } else if v % 3 == 1 {
        CamMode::Hood
    } else {
        CamMode::Orbit
    }
}

/// The mode that follows `m` when the camera is cycled.
pub open spec fn next_mode(m: CamMode) -> CamMode {
    match m {
        CamMode::Chase => CamMode::Hood,
        CamMode::Hood => CamMode::Orbit,
        CamMode::Orbit => CamMode::Chase,
    }
}

impl CamMode {
    /// Any integer selects a mode: chase, hood, orbit, chase, ... by `v % 3`.
    pub fn from_u32(v: u32) -> (m: CamMode)
        ensures
            m == cam_mode_of(v),
    {
        match v % 3 {
            0 => CamMode::Chase,
            1 => CamMode::Hood,
            _ => CamMode::Orbit,
        }
    }
}

/// Cycling the camera: 0 selects chase, and the integer one higher selects
/// the next mode in the chase -> hood -> orbit -> chase cycle.
pub proof fn lemma_mode_cycles(v: u32)
    requires
        v < u32::MAX,
    ensures
        cam_mode_of(0) == CamMode::Chase,
        cam_mode_of((v + 1) as u32) == next_mode(cam_mode_of(v)),
{
}

/// Three steps of the cycle come back to the same mode.
pub proof fn lemma_mode_period(v: u32)
    requires
        v <= u32::MAX - 3,
    ensures
        cam_mode_of((v + 3) as u32) == cam_mode_of(v),
        next_mode(next_mode(next_mode(cam_mode_of(v)))) == cam_mode_of(v),
{
}

} // verus!
