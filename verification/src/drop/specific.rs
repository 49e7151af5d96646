use vstd::prelude::*;
use std::collections::HashSet;
use super::DropScheduler;

verus! {

broadcast use vstd::std_specs::hash::group_hash_axioms;

/// A position in a cycle of fixed, positive length.
#[derive(Debug)]
struct CyclePosition {
    /// Length of the cycle.
    len: u64,
    /// Position of the next packet in the cycle.
    idx: u64,
}

impl CyclePosition {
    #[verifier::type_invariant]
    spec fn in_cycle(self) -> bool {
        self.idx < self.len
    }

    fn start(len: u64) -> (c: Self)
        requires
            len > 0,
        ensures
            c.len == len,
            c.idx == 0,
    {
        Self { len, idx: 0 }
    }

    /// Hands out the current position and moves to the next one.
    fn advance(&mut self) -> (at: u64)
        ensures
            at == old(self).idx,
            final(self).len == old(self).len,
            final(self).idx == (old(self).idx + 1) % (old(self).len as int),
    {
        proof {
            use_type_invariant(&*self);
        }
        let at = self.idx;
        if self.idx + 1 == self.len {
            proof {
                vstd::arithmetic::div_mod::lemma_mod_self_0(self.len as int);
            }
            self.idx = 0;
        } else {
            proof {
                vstd::arithmetic::div_mod::lemma_small_mod((self.idx + 1) as nat, self.len as nat);
            }
            self.idx = self.idx + 1;
        }
        at
    }
}

/// Drops the packets whose position in a repeating cycle is listed.
#[derive(Debug)]
pub struct SpecificDropScheduler {
    /// Positions in the cycle at which a packet is dropped.
    to_drop: HashSet<u64>,
    /// Where the next packet stands in the cycle.
    cycle: CyclePosition,
}

impl SpecificDropScheduler {
    /// The positions that are dropped.
    pub closed spec fn dropped(&self) -> Set<u64> {
        self.to_drop@
    }

    /// The length of the cycle.
    pub closed spec fn cycle_len(&self) -> u64 {
        self.cycle.len
    }

    /// The position of the next packet, counted from the start of its cycle.
    pub closed spec fn position(&self) -> u64 {
        self.cycle.idx
    }

    /// A scheduler that drops nothing yet. The cycle must hold at least one
    /// position: a packet's position is its index modulo the cycle's length.
    pub fn new(cycle_len: u64) -> (s: Self)
        requires
            cycle_len > 0,
        ensures
            s.dropped() == Set::<u64>::empty(),
            s.cycle_len() == cycle_len,
            s.position() == 0,
    {
        Self { to_drop: HashSet::new(), cycle: CyclePosition::start(cycle_len) }
    }

    /// Adds `drops` to the positions that are dropped.
    pub fn add_to_drop(&mut self, drops: &[u64])
        ensures
            final(self).dropped() == old(self).dropped().union(drops@.to_set()),
            final(self).cycle_len() == old(self).cycle_len(),
            final(self).position() == old(self).position(),
    {
        let mut i: usize = 0;
        while i < drops.len()
            invariant
                0 <= i <= drops.len(),
                self.cycle == old(self).cycle,
                self.to_drop@ == old(self).to_drop@.union(drops@.take(i as int).to_set()),
            decreases drops.len() - i,
        {
            let v = drops[i];
            self.to_drop.insert(v);
            proof {
                let before = drops@.take(i as int);
                let after = drops@.take(i + 1);
                assert(after =~= before.push(v));
                assert(after.to_set() =~= before.to_set().insert(v)) by {
                    assert forall|x: u64| after.to_set().contains(x) <==> before.to_set().insert(
                        v,
                    ).contains(x) by {
                        if after.contains(x) {
                            let k = choose|k: int| 0 <= k < after.len() && after[k] == x;
                            if k < before.len() {
                                assert(before[k] == x);
                            }
                        }
                        if before.contains(x) {
                            let k = choose|k: int| 0 <= k < before.len() && before[k] == x;
                            assert(after[k] == x);
                        }
                        if x == v {
                            assert(after[i as int] == v);
                        }
                    }
                }
            }
            i = i + 1;
        }
        proof {
            assert(drops@.take(drops.len() as int) =~= drops@);
        }
    }
}

impl DropScheduler for SpecificDropScheduler {
    fn should_drop(&mut self) -> (b: bool)
        ensures
            b == old(self).dropped().contains(old(self).position()),
            final(self).dropped() == old(self).dropped(),
            final(self).cycle_len() == old(self).cycle_len(),
            final(self).position() == (old(self).position() + 1) % (old(self).cycle_len() as int),
    {
        let at = self.cycle.advance();
        self.to_drop.contains(&at)
    }
}

} // verus!
