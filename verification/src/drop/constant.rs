use vstd::prelude::*;
use super::DropScheduler;

verus! {

/// Drops one packet out of every `step`.
#[derive(Debug)]
pub struct ConstantDropScheduler {
    /// A packet is dropped every `step` calls.
    step: u64,
    /// Calls seen since the last drop.
    nb_calls: u64,
}

impl ConstantDropScheduler {
    /// The counter restarts at every drop, so it stays below the step.
    #[verifier::type_invariant]
    spec fn counter_in_range(self) -> bool {
        self.nb_calls == 0 || self.nb_calls < self.step
    }

    /// The period of the drops.
    pub closed spec fn step(&self) -> u64 {
        self.step
    }

    /// Packets kept since the last drop.
    pub closed spec fn calls(&self) -> u64 {
        self.nb_calls
    }

    /// Whether the next packet is the one that is dropped.
    pub open spec fn drops_next(&self) -> bool {
        self.calls() + 1 >= self.step()
    }

    /// A scheduler that drops every `step`th packet, counted from the first.
    pub fn new(step: u64) -> (s: Self)
        ensures
            s.step() == step,
            s.calls() == 0,
    {
        Self { step, nb_calls: 0 }
    }
}

impl DropScheduler for ConstantDropScheduler {
    fn should_drop(&mut self) -> (b: bool)
        ensures
            b == old(self).drops_next(),
            final(self).step() == old(self).step(),
            final(self).calls() == if b { 0 } else { old(self).calls() + 1 },
    {
        proof {
            use_type_invariant(&*self);
        }
        if self.nb_calls + 1 >= self.step {
            self.nb_calls = 0;
            true
        } else {
            self.nb_calls = self.nb_calls + 1;
            false
        }
    }
}

} // verus!
