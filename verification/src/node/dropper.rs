//! The dropper node: the lossy link.

use vstd::prelude::*;

use crate::drop::none::NoDropScheduler;
use crate::drop::DropOracle;
use crate::drop::IntoOracle;
use crate::drop::DropScheduler;
use crate::drop::OracleView;
use crate::fec::FecMetadata;
use crate::node::encoder::capped_add;
use crate::node::encoder::count_up;
use crate::packet_views;
use crate::Error;
use crate::Packet;
use crate::PacketView;

verus! {

/// What the trace records of a packet: its number, whether it is a repair
/// symbol, and whether it was dropped.
pub type DropTrace = (u64, bool, bool);

/// The packets of `queue` that the decisions `drops` let through.
pub open spec fn passed(queue: Seq<PacketView>, drops: Seq<bool>) -> Seq<PacketView>
    recommends
        queue.len() == drops.len(),
    decreases queue.len(),
{
    if queue.len() == 0 {
        Seq::empty()
    } else {
        let before = passed(queue.drop_last(), drops.drop_last());
        if drops.last() {
            before
        } else {
            before.push(queue.last())
        }
    }
}

/// How many of the decisions are drops.
pub open spec fn count_drops(drops: Seq<bool>) -> nat
    decreases drops.len(),
{
    if drops.len() == 0 {
        0
    } else {
        count_drops(drops.drop_last()) + if drops.last() {
            1nat
        } else {
            0nat
        }
    }
}

/// How many source symbols the decisions drop.
pub open spec fn count_source_drops(queue: Seq<PacketView>, drops: Seq<bool>) -> nat
    recommends
        queue.len() == drops.len(),
    decreases queue.len(),
{
    if queue.len() == 0 {
        0
    } else {
        count_source_drops(queue.drop_last(), drops.drop_last()) + if drops.last()
            && queue.last().is_source() {
            1nat
        } else {
            0nat
        }
    }
}

/// What the trace records of `queue` under the decisions `drops`.
pub open spec fn traced(queue: Seq<PacketView>, drops: Seq<bool>) -> Seq<DropTrace>
    recommends
        queue.len() == drops.len(),
{
    Seq::new(queue.len(), |i: int| (queue[i].id, queue[i].is_repair(), drops[i]))
}

/// The numbers of the source symbols that a trace records as dropped.
pub open spec fn dropped_sources(trace: Seq<DropTrace>) -> Seq<u64>
    decreases trace.len(),
{
    if trace.len() == 0 {
        Seq::empty()
    } else {
        let before = dropped_sources(trace.drop_last());
        if !trace.last().1 && trace.last().2 {
            before.push(trace.last().0)
        } else {
            before
        }
    }
}

/// The dropper node.
pub struct Dropper {
    scheduler: DropOracle,
    nb_recv: u64,
    nb_drop: u64,
    nb_drop_ss: u64,
    pkts: Vec<Packet>,
    trace: Option<Vec<DropTrace>>,
}

/// The dropper node as contracts see it.
pub struct DropperView {
    pub nb_recv: u64,
    pub nb_drop: u64,
    pub nb_drop_ss: u64,
    pub queue: Seq<PacketView>,
    pub trace: Option<Seq<DropTrace>>,
    /// The oracle that decides which packets the link loses.
    pub oracle: OracleView,
}

impl DropperView {
    /// A node that has seen nothing and keeps no trace.
    pub open spec fn fresh(oracle: OracleView) -> Self {
        DropperView {
            nb_recv: 0,
            nb_drop: 0,
            nb_drop_ss: 0,
            queue: Seq::empty(),
            trace: None,
            oracle,
        }
    }

    /// The node with `pkts` queued after what waits.
    pub open spec fn receiving(self, pkts: Seq<PacketView>) -> Self {
        DropperView {
            nb_recv: capped_add(self.nb_recv, pkts.len()),
            queue: self.queue + pkts,
            ..self
        }
    }

    /// The node once it has settled the packet `p` as the oracle decided.
    pub open spec fn settled(self, p: PacketView, is_dropped: bool) -> Self {
        DropperView {
            nb_drop: if is_dropped {
                capped_add(self.nb_drop, 1)
            } else {
                self.nb_drop
            },
            nb_drop_ss: if is_dropped && p.is_source() {
                capped_add(self.nb_drop_ss, 1)
            } else {
                self.nb_drop_ss
            },
            trace: match self.trace {
                Some(t) => Some(t.push((p.id, p.is_repair(), is_dropped))),
                None => None,
            },
            ..self
        }
    }

    /// The node after a pass in which the oracle decided `drops`.
    pub open spec fn after(self, drops: Seq<bool>) -> Self {
        DropperView {
            oracle: self.oracle.after(drops.len()),
            nb_recv: self.nb_recv,
            nb_drop: capped_add(self.nb_drop, count_drops(drops)),
            nb_drop_ss: capped_add(self.nb_drop_ss, count_source_drops(self.queue, drops)),
            queue: Seq::empty(),
            trace: match self.trace {
                Some(t) => Some(t + traced(self.queue, drops)),
                None => None,
            },
        }
    }

    /// A pass in which the oracle decided `drops` leaves the node as `next`
    /// and sends `out`. An oracle whose rule is known decides as its rule
    /// says.
    pub open spec fn forwards(self, drops: Seq<bool>, next: Self, out: Seq<PacketView>) -> bool {
        &&& drops.len() == self.queue.len()
        &&& self.oracle.allows(drops)
        &&& next == self.after(drops)
        &&& out == passed(self.queue, drops)
    }
}

impl View for Dropper {
    type V = DropperView;

    closed spec fn view(&self) -> DropperView {
        DropperView {
            nb_recv: self.nb_recv,
            nb_drop: self.nb_drop,
            nb_drop_ss: self.nb_drop_ss,
            queue: packet_views(self.pkts@),
            trace: match self.trace {
                Some(t) => Some(t@),
                None => None,
            },
            oracle: self.scheduler@,
        }
    }
}

impl Dropper {
    /// A node that asks `scheduler` which packets the link loses. Where the
    /// oracle is one of the library's own, the node's contracts go by its
    /// rule; of any other, handed over in a box, nothing is known but its
    /// answers.
    pub fn new<O: IntoOracle>(scheduler: O) -> (d: Self)
        ensures
            d@ == DropperView::fresh(scheduler.oracle()),
    {
        let d = Self {
            scheduler: scheduler.into_oracle(),
            nb_recv: 0,
            nb_drop: 0,
            nb_drop_ss: 0,
            pkts: Vec::new(),
            trace: None,
        };
        assert(d@.queue =~= Seq::<PacketView>::empty());
        d
    }

    /// A node on a link that loses nothing.
    pub fn new_simple() -> (d: Self)
        ensures
            d@ == DropperView::fresh(OracleView::Never),
    {
        Self::new(DropOracle::Never(NoDropScheduler {  }))
    }

    /// Queues packets for the next pass.
    pub fn recv(&mut self, pkts: Vec<Packet>) -> (r: Result<(), Error>)
        ensures
            r.is_ok(),
            final(self)@ == old(self)@.receiving(packet_views(pkts@)),
    {
        let mut pkts = pkts;
        let ghost waiting = packet_views(self.pkts@);
        let ghost coming = packet_views(pkts@);
        self.nb_recv = count_up(self.nb_recv, pkts.len());
        self.pkts.append(&mut pkts);
        proof {
            assert(packet_views(self.pkts@) =~= waiting + coming);
        }
        Ok(())
    }

    /// Settles one packet as the oracle decided: a dropped packet is
    /// counted, any other goes out; either way the trace takes note.
    pub fn settle(&mut self, pkt: Packet, is_dropped: bool, out: &mut Vec<Packet>)
        ensures
            final(self)@ == old(self)@.settled(pkt@, is_dropped),
            packet_views(final(out)@) == if is_dropped {
                packet_views(old(out)@)
            } else {
                packet_views(old(out)@).push(pkt@)
            },
    {
        let is_repair = match &pkt.fec {
            Some(FecMetadata::Repair(_)) => true,
            _ => false,
        };
        let is_source = match &pkt.fec {
            Some(FecMetadata::Source(_)) => true,
            _ => false,
        };
        let id = pkt.id;
        let ghost sent = packet_views(out@);
        if is_dropped {
            self.nb_drop = self.nb_drop.saturating_add(1);
            if is_source {
                self.nb_drop_ss = self.nb_drop_ss.saturating_add(1);
            }
        } else {
            out.push(pkt);
            proof {
                assert(packet_views(out@) =~= sent.push(pkt@));
            }
        }
        match &mut self.trace {
            Some(trace) => {
                trace.push((id, is_repair, is_dropped));
            },
            None => {},
        }
    }

    /// Runs one pass: asks the oracle once for every queued packet, in
    /// order, and lets through those that it does not drop. The pass
    /// follows from the oracle's answers; an oracle of the library's own
    /// answers as its rule says.
    pub fn forw(&mut self) -> (r: Result<Vec<Packet>, Error>)
        ensures
            r.is_ok(),
            exists|drops: Seq<bool>| #[trigger]
                old(self)@.forwards(drops, final(self)@, packet_views(r.unwrap()@)),
    {
        let mut out: Vec<Packet> = Vec::new();
        let mut pending: Vec<Packet> = Vec::new();
        std::mem::swap(&mut self.pkts, &mut pending);
        let ghost queue = packet_views(pending@);
        let ghost mut drops: Seq<bool> = Seq::empty();
        let ghost start = old(self)@;
        proof {
            assert(packet_views(out@) =~= Seq::<PacketView>::empty());
            assert(queue.take(0) =~= Seq::<PacketView>::empty());
            assert(self@.trace == match start.trace {
                Some(t) => Some(t + traced(queue.take(0), drops)),
                None => None,
            }) by {
                if start.trace is Some {
                    assert(start.trace.unwrap() + traced(queue.take(0), drops)
                        =~= start.trace.unwrap());
                }
            }
        }
        let n = pending.len();
        let mut i: usize = 0;
        for pkt in it: pending
            invariant
                i == it.index(),
                it.seq().len() == n,
                packet_views(it.seq()) == queue,
                queue == old(self)@.queue,
                start == old(self)@,
                drops.len() == i,
                start.oracle.knows() ==> drops == start.oracle.decisions(i as nat),
                self@.oracle == start.oracle.after(i as nat),
                self@.queue.len() == 0,
                self.nb_recv == start.nb_recv,
                self.nb_drop == capped_add(start.nb_drop, count_drops(drops)),
                self.nb_drop_ss == capped_add(
                    start.nb_drop_ss,
                    count_source_drops(queue.take(i as int), drops),
                ),
                self@.trace == match start.trace {
                    Some(t) => Some(t + traced(queue.take(i as int), drops)),
                    None => None,
                },
                packet_views(out@) == passed(queue.take(i as int), drops),
        {
            let is_dropped = self.scheduler.should_drop();
            let ghost before = drops;
            proof {
                crate::drop::lemma_after_knows(start.oracle, i as nat);
                drops = drops.push(is_dropped);
                assert(drops.drop_last() =~= before);
                assert(queue.take(i + 1).drop_last() =~= queue.take(i as int));
                assert(pkt@ == queue[i as int]);
            }
            self.settle(pkt, is_dropped, &mut out);
            proof {
                if start.trace is Some {
                    let t = start.trace.unwrap();
                    assert(t + traced(queue.take(i + 1), drops) =~= (t + traced(
                        queue.take(i as int),
                        before,
                    )).push((queue[i as int].id, queue[i as int].is_repair(), is_dropped)));
                }
            }
            i = i + 1;
        }
        proof {
            assert(queue.take(n as int) =~= queue);
            assert(packet_views(self.pkts@) =~= Seq::<PacketView>::empty());
        }
        let r: Result<Vec<Packet>, Error> = Ok(out);
        proof {
            assert(old(self)@.forwards(drops, self@, packet_views(r.unwrap()@)));
        }
        r
    }

    /// How many packets have been dropped.
    pub fn get_nb_dropped(&self) -> (n: u64)
        ensures
            n == self@.nb_drop,
    {
        self.nb_drop
    }

    /// How many source symbols have been dropped.
    pub fn get_nb_ss_dropped(&self) -> (n: u64)
        ensures
            n == self@.nb_drop_ss,
    {
        self.nb_drop_ss
    }

    /// How many packets have been taken in.
    pub fn get_nb_recv(&self) -> (n: u64)
        ensures
            n == self@.nb_recv,
    {
        self.nb_recv
    }

    /// Starts a trace, or starts it over.
    pub fn activate_trace(&mut self)
        ensures
            final(self)@ == (DropperView { trace: Some(Seq::empty()), ..old(self)@ }),
    {
        self.trace = Some(Vec::new());
    }

    /// What became of each packet, if a trace is kept.
    pub fn get_trace(&self) -> (t: Option<&[DropTrace]>)
        ensures
            match t {
                Some(s) => self@.trace == Some(s@),
                None => self@.trace.is_none(),
            },
    {
        match &self.trace {
            Some(t) => Some(t.as_slice()),
            None => None,
        }
    }

    /// The numbers of the source symbols that were dropped, as the trace
    /// has them.
    pub fn get_dropped_ss(&self) -> (r: Option<Vec<u64>>)
        ensures
            match r {
                Some(v) => self@.trace.is_some() && v@ == dropped_sources(self@.trace.unwrap()),
                None => self@.trace.is_none(),
            },
    {
        match &self.trace {
            Some(t) => {
                let mut out: Vec<u64> = Vec::new();
                let mut i: usize = 0;
                while i < t.len()
                    invariant
                        0 <= i <= t.len(),
                        out@ == dropped_sources(t@.take(i as int)),
                    decreases t.len() - i,
                {
                    proof {
                        assert(t@.take(i + 1).drop_last() =~= t@.take(i as int));
                    }
                    let (id, is_repair, is_dropped) = t[i];
                    if !is_repair && is_dropped {
                        out.push(id);
                    }
                    i = i + 1;
                }
                proof {
                    assert(t@.take(t.len() as int) =~= t@);
                }
                Some(out)
            },
            None => None,
        }
    }
}


/// What the link lets through was on the queue.
pub proof fn lemma_passed_members(queue: Seq<PacketView>, drops: Seq<bool>)
    requires
        queue.len() == drops.len(),
    ensures
        forall|k: int|
            0 <= k < passed(queue, drops).len() ==> queue.contains(#[trigger] passed(queue, drops)[k]),
        passed(queue, drops).len() <= queue.len(),
    decreases queue.len(),
{
    if queue.len() > 0 {
        lemma_passed_members(queue.drop_last(), drops.drop_last());
        let before = passed(queue.drop_last(), drops.drop_last());
        assert forall|k: int| 0 <= k < passed(queue, drops).len() implies queue.contains(
            #[trigger] passed(queue, drops)[k],
        ) by {
            if k < before.len() {
                let x = before[k];
                assert(queue.drop_last().contains(x));
                let w = choose|w: int| 0 <= w < queue.drop_last().len() && queue.drop_last()[w] == x;
                assert(queue[w] == x);
            } else {
                assert(queue[queue.len() - 1] == queue.last());
            }
        }
    }
}


/// A link that drops nothing passes everything.
pub proof fn lemma_passed_all(queue: Seq<PacketView>, drops: Seq<bool>)
    requires
        drops.len() == queue.len(),
        forall|i: int| 0 <= i < drops.len() ==> !drops[i],
    ensures
        passed(queue, drops) == queue,
        count_drops(drops) == 0,
        count_source_drops(queue, drops) == 0,
    decreases queue.len(),
{
    if queue.len() > 0 {
        let front = drops.drop_last();
        assert forall|i: int| 0 <= i < front.len() implies !front[i] by {
            assert(front[i] == drops[i]);
        }
        lemma_passed_all(queue.drop_last(), front);
        assert(!drops[drops.len() - 1]);
        assert(queue.drop_last().push(queue.last()) =~= queue);
    } else {
        assert(passed(queue, drops) =~= queue);
    }
}

/// The node on a link that loses nothing forwards all that waits at it and
/// counts no drop.
pub proof fn lemma_lossless_forwards(d: DropperView, drops: Seq<bool>, next: DropperView, out: Seq<
    PacketView,
>)
    requires
        d.oracle is Never,
        d.forwards(drops, next, out),
    ensures
        out == d.queue,
        next.nb_drop == d.nb_drop,
        next.nb_drop_ss == d.nb_drop_ss,
        next.oracle is Never,
{
    crate::drop::lemma_never_drops(drops.len());
    lemma_passed_all(d.queue, drops);
}

} // verus!
