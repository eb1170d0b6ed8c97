//! The cars of the world: how many there are, which one the camera follows
//! and the input drives, and how many beams of that car had snapped when it
//! was last looked at (crash-audio impact detection).

use vstd::prelude::*;
use crate::layout::MAX_CARS;

verus! {

/// Car bookkeeping of the world. The world always has at least one car, and
/// the active index always names one of them.
pub struct Fleet {
    pub car_count: usize,
    pub active: usize,
    /// Broken beams of the active car at the last impact sample.
    pub prev_broken: usize,
}

/// Beams snapped between two samples of the broken-beam count: the increase,
/// or none if the count went down (as after a reset).
pub open spec fn snapped_between(prev: usize, now: usize) -> usize {
    if now >= prev { (now - prev) as usize } else { 0 }
}

/// The bookkeeping after asking to make car `idx` active with `broken`
/// broken beams: switched, with impact tracking restarted, if the car exists;
/// unchanged otherwise.
pub open spec fn set_active_spec(f: Fleet, idx: usize, broken: usize) -> Fleet {
    if idx < f.car_count {
        Fleet { car_count: f.car_count, active: idx, prev_broken: broken }
    } else {
        f
    }
}

impl Fleet {
    /// At least one car, and the active one exists.
    pub open spec fn wf(&self) -> bool {
        1 <= self.car_count && self.active < self.car_count
    }

    /// A world with its first car, which is active.
    pub fn new() -> (f: Fleet)
        ensures
            f.wf(),
            f.car_count == 1,
            f.active == 0,
            f.prev_broken == 0,
    {
        Fleet { car_count: 1, active: 0, prev_broken: 0 }
    }

    /// A car was spawned: one more car, the active one unchanged.
    pub fn add_car(&mut self)
        requires
            old(self).car_count < usize::MAX,
        ensures
            final(self).car_count == old(self).car_count + 1,
            final(self).active == old(self).active,
            final(self).prev_broken == old(self).prev_broken,
            old(self).wf() ==> final(self).wf(),
    {
        self.car_count = self.car_count + 1;
    }

    /// Whether a car may be spawned next to the active one: the world holds
    /// fewer than `MAX_CARS` cars.
    pub fn can_spawn_near(&self) -> (b: bool)
        ensures
            b == (self.car_count < MAX_CARS),
    {
        self.car_count < MAX_CARS
    }

    /// Make car `idx` the active one, if it exists, restarting impact tracking
    /// from its current broken-beam count `broken`. A missing car changes
    /// nothing. Returns whether the active car changed to `idx`.
    pub fn set_active(&mut self, idx: usize, broken: usize) -> (selected: bool)
        ensures
            selected == (idx < old(self).car_count),
            *final(self) == set_active_spec(*old(self), idx, broken),
            old(self).wf() ==> final(self).wf(),
    {
        if idx < self.car_count {
            self.active = idx;
            self.prev_broken = broken;
            true
        } else {
            false
        }
    }

    /// Record the active car's broken-beam count `broken_now` and return how
    /// many beams snapped since the last record (none if the count went down,
    /// as after a reset).
    pub fn record_broken(&mut self, broken_now: usize) -> (snapped: usize)
        ensures
            snapped == snapped_between(old(self).prev_broken, broken_now),
            final(self).prev_broken == broken_now,
            final(self).car_count == old(self).car_count,
            final(self).active == old(self).active,
    {
        let snapped = broken_now.saturating_sub(self.prev_broken);
        self.prev_broken = broken_now;
        snapped
    }
}

/// Switching cars does not spike the impact level: once an existing car is
/// made active with its current broken-beam count, sampling that same count
/// reports no snapped beams.
pub proof fn lemma_switch_no_spike(f: Fleet, idx: usize, broken: usize)
    requires
        idx < f.car_count,
    ensures
        set_active_spec(f, idx, broken).active == idx,
        snapped_between(set_active_spec(f, idx, broken).prev_broken, broken) == 0,
{
}

/// The snapped count is the growth of the broken-beam count: the earlier
/// sample plus the snapped beams gives the later one when the count grew,
/// and nothing is reported when it fell or stayed.
pub proof fn lemma_snapped_is_growth(prev: usize, now: usize)
    ensures
        now >= prev ==> prev + snapped_between(prev, now) == now,
        now <= prev ==> snapped_between(prev, now) == 0,
        snapped_between(prev, now) <= now,
{
}

} // verus!
