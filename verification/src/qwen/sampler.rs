//! Flow-match schedules: a falling list of noise levels that ends in zero.
use crate::binary32::Binary32;
use vstd::prelude::*;

verus! {

/// A schedule: the noise level before every step, and after the last one.
#[derive(Debug)]
pub struct FlowMatchSampler {
    pub sigmas: Vec<Binary32>,
}

impl FlowMatchSampler {
    /// A schedule has a level to end at.
    pub open spec fn wf(self) -> bool {
        self.sigmas@.len() > 0
    }

    /// Wrap a list of noise levels.
    pub fn new(sigmas: Vec<Binary32>) -> (r: FlowMatchSampler)
        requires
            sigmas@.len() > 0,
        ensures
            r.wf(),
            r.sigmas@ == sigmas@,
    {
        FlowMatchSampler { sigmas }
    }

    /// The number of steps.
    pub fn num_steps(&self) -> (r: usize)
        requires
            self.wf(),
        ensures
            r == self.sigmas@.len() - 1,
    {
        self.sigmas.len() - 1
    }

    /// The noise level before step `i`; after the last step, the level that the schedule ends at.
    pub fn sigma(&self, i: usize) -> (r: Binary32)
        requires
            i < self.sigmas@.len(),
        ensures
            r == self.sigmas@[i as int],
    {
        self.sigmas[i]
    }

    /// The timestep that the model sees at step `i`: the noise level itself.
    pub fn timestep(&self, i: usize) -> (r: Binary32)
        requires
            i < self.sigmas@.len(),
        ensures
            r == self.sigmas@[i as int],
    {
        self.sigmas[i]
    }

    /// The levels that step `i` goes from and to.
    pub fn step_levels(&self, i: usize) -> (r: (Binary32, Binary32))
        requires
            i + 1 < self.sigmas@.len(),
        ensures
            r.0 == self.sigmas@[i as int],
            r.1 == self.sigmas@[i + 1],
    {
        let len: usize = self.sigmas.len();
        assert(i + 1 < len);
        (self.sigmas[i], self.sigmas[i + 1])
    }
}

} // verus!
