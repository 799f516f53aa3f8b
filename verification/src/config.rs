use vstd::prelude::*;

verus! {

/// Surface geometry and detection thresholds, all in whole pixels.
#[derive(Debug, Copy, Clone)]
pub struct Config {
    pub screen_width: i32,
    pub screen_height: i32,
    /// How close to a border a touch must begin to count as an edge touch.
    pub zone_width: i32,
    /// How far a touch must travel on an axis before a direction is read.
    pub detection_threshold: i32,
}

impl Config {
    /// Every dimension and threshold is a positive number of pixels.
    pub open spec fn wf(self) -> bool {
        0 < self.screen_width && 0 < self.screen_height && 0 < self.zone_width
            && 0 < self.detection_threshold
    }
}

} // verus!
