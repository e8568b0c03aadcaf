//! The A4988 stepper driver: the three pins that drive it.

use vstd::prelude::*;

verus! {

/// An A4988 stepper driver, driven by its step, direction and sleep pins.
pub struct A4988<STEP, DIR, EN> {
    step: STEP,
    dir: DIR,
    slp: EN,
}

impl<STEP, DIR, EN> A4988<STEP, DIR, EN> {
    /// The pin that makes a step.
    pub closed spec fn step_pin(&self) -> STEP {
        self.step
    }

    /// The pin that sets the direction.
    pub closed spec fn dir_pin(&self) -> DIR {
        self.dir
    }

    /// The pin that puts the driver to sleep.
    pub closed spec fn sleep_pin(&self) -> EN {
        self.slp
    }

    pub fn new(step: STEP, dir: DIR, slp: EN) -> (r: Self)
        ensures
            r.step_pin() == step,
            r.dir_pin() == dir,
            r.sleep_pin() == slp,
    {
        Self { step, dir, slp }
    }
}

} // verus!
