//! The stages of the pipeline.

use vstd::prelude::*;
use std::collections::HashSet;

pub mod decoder;
pub mod dropper;
pub mod encoder;

use crate::packet_views;
use crate::Packet;
use crate::PacketView;

verus! {

broadcast use vstd::std_specs::hash::group_hash_axioms;

/// Mints the source packets, numbered from zero.
pub struct Source {
    /// Sequence number of the next packet.
    id: u64,
}

impl Source {
    /// The sequence number of the next packet.
    pub closed spec fn next_id(&self) -> u64 {
        self.id
    }

    /// A source that has minted nothing.
    pub fn new() -> (s: Self)
        ensures
            s.next_id() == 0,
    {
        Self { id: 0 }
    }

    /// Mints the next packet.
    pub fn gen(&mut self) -> (p: Packet)
        requires
            old(self).next_id() < u64::MAX,
        ensures
            p@ == PacketView::fresh(old(self).next_id()),
            final(self).next_id() == old(self).next_id() + 1,
    {
        let pkt = Packet::new(self.id);
        self.id = self.id + 1;
        pkt
    }
}

/// The numbers of the packets that were rebuilt, in the order of arrival.
pub open spec fn recovered_ids(received: Seq<PacketView>) -> Seq<u64>
    decreases received.len(),
{
    if received.len() == 0 {
        Seq::empty()
    } else {
        let before = recovered_ids(received.drop_last());
        if received.last().recovered_from.is_some() {
            before.push(received.last().id)
        } else {
            before
        }
    }
}

/// For each packet that was rebuilt, its number and the distance from
/// which it was rebuilt, in the order of arrival.
pub open spec fn recovering_delays(received: Seq<PacketView>) -> Seq<(u64, u64)>
    decreases received.len(),
{
    if received.len() == 0 {
        Seq::empty()
    } else {
        let before = recovering_delays(received.drop_last());
        match received.last().recovered_from {
            Some(d) => before.push((received.last().id, d)),
            None => before,
        }
    }
}

/// The numbers that occur among the packets.
pub open spec fn id_set(received: Seq<PacketView>) -> Set<u64> {
    Set::new(|id: u64| exists|k: int| 0 <= k < received.len() && (#[trigger] received[k]).id == id)
}

/// The numbers below `bound` that are not in `seen`, in rising order.
pub open spec fn lost_below(seen: Set<u64>, bound: nat) -> Seq<u64>
    decreases bound,
{
    if bound == 0 {
        Seq::empty()
    } else {
        let before = lost_below(seen, (bound - 1) as nat);
        if seen.contains((bound - 1) as u64) {
            before
        } else {
            before.push((bound - 1) as u64)
        }
    }
}

/// The number of every packet that arrived after another of the same
/// number, in the order of arrival.
pub open spec fn duplicate_ids(received: Seq<PacketView>) -> Seq<u64>
    decreases received.len(),
{
    if received.len() == 0 {
        Seq::empty()
    } else {
        let before = duplicate_ids(received.drop_last());
        if id_set(received.drop_last()).contains(received.last().id) {
            before.push(received.last().id)
        } else {
            before
        }
    }
}

/// Collects what comes out of the pipeline. Packets are kept in the order
/// of arrival, and twice where they arrive twice.
pub struct Sink {
    recv: Vec<Packet>,
}

impl View for Sink {
    type V = Seq<PacketView>;

    closed spec fn view(&self) -> Seq<PacketView> {
        packet_views(self.recv@)
    }
}

impl Sink {
    /// A sink that has received nothing.
    pub fn new() -> (s: Self)
        ensures
            s@ == Seq::<PacketView>::empty(),
    {
        let s = Self { recv: Vec::new() };
        assert(s@ =~= Seq::<PacketView>::empty());
        s
    }

    /// Receives a packet.
    pub fn recv(&mut self, pkt: Packet)
        ensures
            final(self)@ == old(self)@.push(pkt@),
    {
        self.recv.push(pkt);
        assert(self@ =~= old(self)@.push(pkt@));
    }

    /// Receives several packets.
    pub fn recv_multiple(&mut self, pkt: Vec<Packet>)
        ensures
            final(self)@ == old(self)@ + packet_views(pkt@),
    {
        let mut pkt = pkt;
        let ghost coming = packet_views(pkt@);
        self.recv.append(&mut pkt);
        assert(self@ =~= old(self)@ + coming);
    }

    /// The set of the numbers received.
    fn seen(&self) -> (ids: HashSet<u64>)
        ensures
            ids@ == id_set(self@),
    {
        let mut ids: HashSet<u64> = HashSet::new();
        let mut i: usize = 0;
        while i < self.recv.len()
            invariant
                0 <= i <= self.recv.len(),
                ids@ == id_set(self@.take(i as int)),
            decreases self.recv.len() - i,
        {
            ids.insert(self.recv[i].id);
            proof {
                lemma_id_set_push(self@.take(i as int), self@[i as int]);
                assert(self@.take(i + 1) =~= self@.take(i as int).push(self@[i as int]));
            }
            i = i + 1;
        }
        proof {
            assert(id_set(self@.take(0)) =~= Set::<u64>::empty());
            assert(self@.take(self.recv.len() as int) =~= self@);
        }
        ids
    }

    /// The numbers of the packets that were rebuilt.
    pub fn get_recovered(&self) -> (ids: Vec<u64>)
        ensures
            ids@ == recovered_ids(self@),
    {
        let mut ids: Vec<u64> = Vec::new();
        let mut i: usize = 0;
        while i < self.recv.len()
            invariant
                0 <= i <= self.recv.len(),
                ids@ == recovered_ids(self@.take(i as int)),
            decreases self.recv.len() - i,
        {
            proof {
                assert(self@.take(i + 1).drop_last() =~= self@.take(i as int));
            }
            if self.recv[i].recovered.is_some() {
                ids.push(self.recv[i].id);
            }
            i = i + 1;
        }
        proof {
            assert(self@.take(self.recv.len() as int) =~= self@);
        }
        ids
    }

    /// For each packet that was rebuilt, its number and how many source
    /// symbols behind the triggering packet it lay.
    pub fn get_recovering_delay(&self) -> (delays: Vec<(u64, u64)>)
        ensures
            delays@ == recovering_delays(self@),
    {
        let mut delays: Vec<(u64, u64)> = Vec::new();
        let mut i: usize = 0;
        while i < self.recv.len()
            invariant
                0 <= i <= self.recv.len(),
                delays@ == recovering_delays(self@.take(i as int)),
            decreases self.recv.len() - i,
        {
            proof {
                assert(self@.take(i + 1).drop_last() =~= self@.take(i as int));
            }
            match self.recv[i].recovered {
                Some(d) => {
                    delays.push((self.recv[i].id, d));
                },
                None => {},
            }
            i = i + 1;
        }
        proof {
            assert(self@.take(self.recv.len() as int) =~= self@);
        }
        delays
    }

    /// The numbers below `max_id` that never arrived, in rising order.
    pub fn get_lost(&self, max_id: u64) -> (lost: Vec<u64>)
        ensures
            lost@ == lost_below(id_set(self@), max_id as nat),
    {
        let seen = self.seen();
        let mut lost: Vec<u64> = Vec::new();
        let mut i: u64 = 0;
        while i < max_id
            invariant
                0 <= i <= max_id,
                seen@ == id_set(self@),
                lost@ == lost_below(id_set(self@), i as nat),
            decreases max_id - i,
        {
            if !seen.contains(&i) {
                lost.push(i);
            }
            i = i + 1;
        }
        lost
    }

    /// The number of every packet that arrived after another of the same
    /// number.
    pub fn get_duplicates(&self) -> (out: Vec<u64>)
        ensures
            out@ == duplicate_ids(self@),
    {
        let mut out: Vec<u64> = Vec::new();
        let mut uniques: HashSet<u64> = HashSet::new();
        let mut i: usize = 0;
        proof {
            assert(id_set(self@.take(0)) =~= Set::<u64>::empty());
        }
        while i < self.recv.len()
            invariant
                0 <= i <= self.recv.len(),
                uniques@ == id_set(self@.take(i as int)),
                out@ == duplicate_ids(self@.take(i as int)),
            decreases self.recv.len() - i,
        {
            proof {
                assert(self@.take(i + 1).drop_last() =~= self@.take(i as int));
                lemma_id_set_push(self@.take(i as int), self@[i as int]);
                assert(self@.take(i + 1) =~= self@.take(i as int).push(self@[i as int]));
            }
            let id = self.recv[i].id;
            if uniques.contains(&id) {
                out.push(id);
                proof {
                    assert(uniques@.insert(id) =~= uniques@);
                }
            } else {
                uniques.insert(id);
            }
            i = i + 1;
        }
        proof {
            assert(self@.take(self.recv.len() as int) =~= self@);
        }
        out
    }
}

/// One more packet adds its number to those that occur.
pub proof fn lemma_id_set_push(received: Seq<PacketView>, p: PacketView)
    ensures
        id_set(received.push(p)) == id_set(received).insert(p.id),
{
    let longer = received.push(p);
    assert forall|id: u64| id_set(longer).contains(id) <==> id_set(received).insert(p.id).contains(
        id,
    ) by {
        if id_set(longer).contains(id) {
            let k = choose|k: int| 0 <= k < longer.len() && (#[trigger] longer[k]).id == id;
            if k < received.len() {
                assert(received[k].id == id);
            }
        }
        if id_set(received).contains(id) {
            let k = choose|k: int| 0 <= k < received.len() && (#[trigger] received[k]).id == id;
            assert(longer[k].id == id);
        }
        if id == p.id {
            assert(longer[received.len() as int].id == id);
        }
    }
    assert(id_set(longer) =~= id_set(received).insert(p.id));
}

} // verus!
