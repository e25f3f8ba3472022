//! Configuration for leave-k-out resampling over an index set.

use vstd::prelude::*;

verus! {

/// How many indices each resampling iteration leaves out, and how many
/// iterations are run.
#[derive(Copy, Clone, PartialEq, Eq, Structural, Debug)]
pub struct JackknifeConfig {
    pub leave_out: usize,
    pub num_reps: usize,
}

impl JackknifeConfig {
    pub fn new(leave_out: usize, num_reps: usize) -> (c: JackknifeConfig)
        ensures
            c.leave_out == leave_out,
            c.num_reps == num_reps,
    {
        JackknifeConfig { leave_out, num_reps }
    }
}

} // verus!
