//! Episode bookkeeping of a Gymnasium-style environment wrapper.
use vstd::prelude::*;

verus! {

/// Step counter of an episode with a fixed step budget.
#[derive(Debug, Clone, Copy)]
pub struct EpisodeCounter {
    steps: usize,
    max_steps: usize,
}

impl EpisodeCounter {
    /// Steps taken since the last reset.
    pub closed spec fn steps_spec(self) -> usize {
        self.steps
    }

    /// Maximum number of steps before the episode terminates.
    pub closed spec fn max_steps_spec(self) -> usize {
        self.max_steps
    }

    /// Maximum number of steps before the episode terminates.
    pub fn max_steps(&self) -> (m: usize)
        ensures
            m == self.max_steps_spec(),
    {
        self.max_steps
    }

    /// Change the step budget.
    pub fn set_max_steps(&mut self, max_steps: usize)
        ensures
            final(self).max_steps_spec() == max_steps,
            final(self).steps_spec() == old(self).steps_spec(),
    {
        self.max_steps = max_steps;
    }

    /// A fresh episode with the given step budget.
    pub fn new(max_steps: usize) -> (e: Self)
        ensures
            e.steps_spec() == 0,
            e.max_steps_spec() == max_steps,
    {
        EpisodeCounter { steps: 0, max_steps }
    }

    /// Steps taken since the last reset.
    pub fn steps(&self) -> (s: usize)
        ensures
            s == self.steps_spec(),
    {
        self.steps
    }

    /// Start a new episode.
    pub fn reset(&mut self)
        ensures
            final(self).steps_spec() == 0,
            final(self).max_steps_spec() == old(self).max_steps_spec(),
    {
        self.steps = 0;
    }

    /// Record one environment step; returns whether the episode has now
    /// terminated (the step budget is used up).
    pub fn advance(&mut self) -> (terminated: bool)
        requires
            old(self).steps_spec() < usize::MAX,
        ensures
            final(self).steps_spec() == old(self).steps_spec() + 1,
            final(self).max_steps_spec() == old(self).max_steps_spec(),
            terminated == (final(self).steps_spec() >= final(self).max_steps_spec()),
    {
        self.steps = self.steps + 1;
        self.steps >= self.max_steps
    }
}

} // verus!
