//! Drop oracles: each decides, packet by packet, whether the link loses it.

use vstd::prelude::*;

pub mod constant;
pub mod none;
pub mod specific;

use crate::drop::constant::ConstantDropScheduler;
use crate::drop::none::NoDropScheduler;
use crate::drop::specific::SpecificDropScheduler;

verus! {

/// A loss model. Each call stands for one packet crossing the link and
/// answers whether that packet is lost. An oracle may keep state between
/// calls, so nothing is promised of the answer here; each model states its
/// own rule on its implementation.
pub trait DropScheduler {
    fn should_drop(&mut self) -> bool;
}

/// The oracle of a dropper: one of the library's own, whose rule the
/// dropper knows, or any other, whose answers it takes as they come.
pub enum DropOracle {
    Never(NoDropScheduler),
    Constant(ConstantDropScheduler),
    Specific(SpecificDropScheduler),
    Other(Box<dyn DropScheduler>),
}

/// An oracle as contracts see it: for the library's own, what their rule
/// goes by.
pub enum OracleView {
    /// Drops nothing.
    Never,
    /// Drops the packet that brings the count of calls since the last drop
    /// to `step`.
    Constant { step: u64, calls: u64 },
    /// Drops the packets at the positions `dropped` of a cycle.
    Specific { dropped: Set<u64>, cycle_len: u64, position: u64 },
    /// An oracle of which nothing is known.
    Other,
}

impl OracleView {
    /// Whether the oracle's rule is known.
    pub open spec fn knows(self) -> bool {
        !(self is Other)
    }

    /// What the oracle decides of the next packet; `true` is a drop.
    pub open spec fn decides(self) -> bool {
        match self {
            OracleView::Never => false,
            OracleView::Constant { step, calls } => calls + 1 >= step,
            OracleView::Specific { dropped, cycle_len, position } => dropped.contains(position),
            OracleView::Other => false,
        }
    }

    /// The oracle after it has decided of one packet.
    pub open spec fn next(self) -> Self {
        match self {
            OracleView::Never => self,
            OracleView::Constant { step, calls } => OracleView::Constant {
                step,
                calls: if calls + 1 >= step {
                    0
                } else {
                    (calls + 1) as u64
                },
            },
            OracleView::Specific { dropped, cycle_len, position } => OracleView::Specific {
                dropped,
                cycle_len,
                position: ((position + 1) % (cycle_len as int)) as u64,
            },
            OracleView::Other => self,
        }
    }

    /// The oracle after it has decided of `n` packets.
    pub open spec fn after(self, n: nat) -> Self
        decreases n,
    {
        if n == 0 {
            self
        } else {
            self.after((n - 1) as nat).next()
        }
    }

    /// What the oracle decides of the next `n` packets, in order.
    pub open spec fn decisions(self, n: nat) -> Seq<bool>
        decreases n,
    {
        if n == 0 {
            Seq::empty()
        } else {
            self.decisions((n - 1) as nat).push(self.after((n - 1) as nat).decides())
        }
    }

    /// Whether the oracle may have decided `drops`: an oracle whose rule is
    /// known decides as its rule says.
    pub open spec fn allows(self, drops: Seq<bool>) -> bool {
        self.knows() ==> drops == self.decisions(drops.len())
    }
}

impl View for DropOracle {
    type V = OracleView;

    open spec fn view(&self) -> OracleView {
        match self {
            DropOracle::Never(_) => OracleView::Never,
            DropOracle::Constant(c) => OracleView::Constant { step: c.step(), calls: c.calls() },
            DropOracle::Specific(s) => OracleView::Specific {
                dropped: s.dropped(),
                cycle_len: s.cycle_len(),
                position: s.position(),
            },
            DropOracle::Other(_) => OracleView::Other,
        }
    }
}

impl DropOracle {
    /// Asks the oracle whether the next packet is lost.
    pub fn should_drop(&mut self) -> (b: bool)
        ensures
            old(self)@.knows() ==> b == old(self)@.decides(),
            final(self)@ == old(self)@.next(),
    {
        match self {
            DropOracle::Never(n) => n.should_drop(),
            DropOracle::Constant(c) => c.should_drop(),
            DropOracle::Specific(s) => s.should_drop(),
            DropOracle::Other(o) => o.should_drop(),
        }
    }
}

/// What a dropper takes as its oracle: one of the library's own, in a box
/// or as it is, whose rule then stands in the dropper's contracts, or any
/// other in a box, of which nothing is known but its answers.
pub trait IntoOracle: Sized {
    /// The oracle as the dropper's contracts see it.
    spec fn oracle(&self) -> OracleView;

    /// Hands the oracle over.
    fn into_oracle(self) -> (o: DropOracle)
        ensures
            o@ == self.oracle(),
    ;
}

impl IntoOracle for DropOracle {
    open spec fn oracle(&self) -> OracleView {
        self@
    }

    fn into_oracle(self) -> (o: DropOracle) {
        self
    }
}

impl IntoOracle for Box<NoDropScheduler> {
    open spec fn oracle(&self) -> OracleView {
        OracleView::Never
    }

    fn into_oracle(self) -> (o: DropOracle) {
        DropOracle::Never(*self)
    }
}

impl IntoOracle for Box<ConstantDropScheduler> {
    open spec fn oracle(&self) -> OracleView {
        OracleView::Constant { step: self.step(), calls: self.calls() }
    }

    fn into_oracle(self) -> (o: DropOracle) {
        DropOracle::Constant(*self)
    }
}

impl IntoOracle for Box<SpecificDropScheduler> {
    open spec fn oracle(&self) -> OracleView {
        OracleView::Specific {
            dropped: self.dropped(),
            cycle_len: self.cycle_len(),
            position: self.position(),
        }
    }

    fn into_oracle(self) -> (o: DropOracle) {
        DropOracle::Specific(*self)
    }
}

impl IntoOracle for Box<dyn DropScheduler> {
    open spec fn oracle(&self) -> OracleView {
        OracleView::Other
    }

    fn into_oracle(self) -> (o: DropOracle) {
        DropOracle::Other(self)
    }
}

/// An oracle stays of its kind, whatever it decides.
pub proof fn lemma_after_knows(oracle: OracleView, n: nat)
    ensures
        oracle.after(n).knows() == oracle.knows(),
    decreases n,
{
    if n > 0 {
        lemma_after_knows(oracle, (n - 1) as nat);
    }
}

/// An oracle decides once of every packet.
pub proof fn lemma_decisions_len(oracle: OracleView, n: nat)
    ensures
        oracle.decisions(n).len() == n,
    decreases n,
{
    if n > 0 {
        lemma_decisions_len(oracle, (n - 1) as nat);
    }
}

/// An oracle that drops nothing decides so of every packet.
pub proof fn lemma_never_drops(n: nat)
    ensures
        OracleView::Never.after(n) == OracleView::Never,
        OracleView::Never.decisions(n) == Seq::new(n, |i: int| false),
    decreases n,
{
    if n > 0 {
        lemma_never_drops((n - 1) as nat);
        assert(OracleView::Never.decisions(n) =~= Seq::new(n, |i: int| false));
    } else {
        assert(OracleView::Never.decisions(n) =~= Seq::new(n, |i: int| false));
    }
}

} // verus!
