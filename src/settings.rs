//! Automation switches read from the settings file.
use vstd::prelude::*;

verus! {

/// Which automations run.
#[derive(Clone, Copy, Debug, PartialEq, Eq, Structural)]
pub struct Automation {
    pub merge: Merge,
    pub shtorm: Shtorm,
}

/// Merging equal barrels into the next level.
#[derive(Clone, Copy, Debug, PartialEq, Eq, Structural)]
pub struct Merge {
    pub enabled: bool,
}

/// Sweeping the screen while the magnet cloud is up, `retries` times.
#[derive(Clone, Copy, Debug, PartialEq, Eq, Structural)]
pub struct Shtorm {
    pub enabled: bool,
    pub retries: usize,
}

/// Random jitter added to each click target, up to the given pixels either way.
#[derive(Clone, Copy, Debug, PartialEq, Eq, Structural)]
pub struct RandomOffsetSettings {
    pub enabled: bool,
    pub max_x_offset: i32,
    pub max_y_offset: i32,
}

} // verus!
