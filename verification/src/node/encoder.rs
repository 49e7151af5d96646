//! The encoder node: protects what it is given and adds the repair symbols
//! that fall due.

use vstd::prelude::*;

use crate::fec::maelstrom::bumped;
use crate::fec::maelstrom::laws::carried;
use crate::fec::maelstrom::laws::lists_a_class;
use crate::fec::maelstrom::Symbol;
use crate::fec::maelstrom::MaelstromEncoderView;
use crate::fec::FecEncoder;
use crate::fec::FecEncoderView;
use crate::all_in_step;
use crate::all_packets_below;
use crate::packet_views;
use crate::Error;
use crate::Packet;
use crate::PacketView;

verus! {

/// `a + n`, up to the largest number.
pub open spec fn capped_add(a: u64, n: nat) -> u64 {
    if a + n <= u64::MAX {
        (a + n) as u64
    } else {
        u64::MAX
    }
}

/// `a + n`, up to the largest number.
pub fn count_up(a: u64, n: usize) -> (r: u64)
    ensures
        r == capped_add(a, n as nat),
{
    a.saturating_add(n as u64)
}

/// Whether the error says that the code had no symbol to generate a repair
/// symbol from, which is no failure.
pub open spec fn nothing_to_repair(e: Error) -> bool {
    e matches Error::FecEncoder(text) && text@ == "NoSymbolToGenerate"@
}

/// The repair symbols that the code granted: none where it failed.
pub open spec fn granted(repairs: Result<Vec<Packet>, Error>) -> Seq<PacketView> {
    match repairs {
        Ok(v) => packet_views(v@),
        Err(_) => Seq::empty(),
    }
}

/// What comes of settling a packet with what the code made of the call
/// for repair symbols: an error ends the pass, unless it only says that
/// there was nothing to repair.
pub open spec fn settling(repairs: Result<Vec<Packet>, Error>) -> Result<(), Error> {
    match repairs {
        Err(e) => if nothing_to_repair(e) {
            Ok(())
        } else {
            Err(e)
        },
        Ok(_) => Ok(()),
    }
}

/// How far a pass over the encoder's queue has come.
pub struct Encoded {
    /// The code, as the packets so far have left it.
    pub fec: FecEncoderView,
    /// What goes out.
    pub out: Seq<PacketView>,
    /// The count of repair symbols.
    pub nb_rs: u64,
    /// Whether the code has turned a packet down, which ends the pass.
    pub refused: bool,
}

/// One pass over `queue`: each packet is protected and goes out, followed
/// by the repair symbols that fall due with it. A packet that the code turns
/// down ends the pass.
pub open spec fn encode(fec: FecEncoderView, nb_rs: u64, queue: Seq<PacketView>) -> Encoded
    decreases queue.len(),
{
    if queue.len() == 0 {
        Encoded { fec, out: Seq::empty(), nb_rs, refused: false }
    } else {
        let before = encode(fec, nb_rs, queue.drop_last());
        let p = queue.last();
        if before.refused || before.fec.refuses(p) {
            Encoded { refused: true, ..before }
        } else {
            let holding = before.fec.protect(p);
            let sent = before.out.push(before.fec.protected(p));
            if holding.should_generate() {
                Encoded {
                    fec: holding.after_round(),
                    out: sent + holding.repairs(),
                    nb_rs: capped_add(before.nb_rs, holding.repairs().len()),
                    refused: false,
                }
            } else {
                Encoded { fec: holding, out: sent, nb_rs: before.nb_rs, refused: false }
            }
        }
    }
}

/// The encoder node.
pub struct Encoder {
    /// Data packets taken in.
    nb_ss: u64,
    /// Repair packets generated.
    nb_rs: u64,
    /// The packets that wait to be processed, in order.
    pkts: Vec<Packet>,
    /// The code.
    fec: FecEncoder,
}

/// The encoder node as contracts see it.
pub struct EncoderView {
    pub nb_ss: u64,
    pub nb_rs: u64,
    pub queue: Seq<PacketView>,
    pub fec: FecEncoderView,
}

impl EncoderView {
    /// Whether the code can take `queue` in after what already waits: it
    /// has numbers left for all, and can read every payload.
    pub open spec fn admits(self, queue: Seq<PacketView>) -> bool {
        self.fec is Maelstrom ==> {
            &&& self.queue.len() + queue.len() <= self.fec.room()
            &&& forall|i: int| 0 <= i < queue.len() ==> (#[trigger] queue[i]).summable()
        }
    }

    /// The code is in order, and can take in what waits.
    pub open spec fn wf(self) -> bool {
        &&& self.fec.wf()
        &&& (EncoderView { queue: Seq::empty(), ..self }).admits(self.queue)
    }

    /// The node once it has settled one source packet with the repair
    /// symbols that its code granted.
    pub open spec fn settled(self, repairs: Result<Vec<Packet>, Error>) -> Self {
        EncoderView {
            nb_ss: bumped(self.nb_ss),
            nb_rs: capped_add(self.nb_rs, granted(repairs).len()),
            ..self
        }
    }

    /// A node that has seen nothing.
    pub open spec fn fresh(fec: FecEncoderView) -> Self {
        EncoderView { nb_ss: 0, nb_rs: 0, queue: Seq::empty(), fec }
    }
}

impl View for Encoder {
    type V = EncoderView;

    closed spec fn view(&self) -> EncoderView {
        EncoderView {
            nb_ss: self.nb_ss,
            nb_rs: self.nb_rs,
            queue: packet_views(self.pkts@),
            fec: self.fec@,
        }
    }
}

impl Encoder {
    /// A node that has seen nothing and applies `fec`.
    pub fn new(fec: FecEncoder) -> (e: Self)
        ensures
            e@ == EncoderView::fresh(fec@),
    {
        let e = Self { nb_ss: 0, nb_rs: 0, pkts: Vec::new(), fec };
        assert(e@.queue =~= Seq::<PacketView>::empty());
        e
    }

    /// A node that applies no code.
    pub fn new_simple() -> (e: Self)
        ensures
            e@ == EncoderView::fresh(FecEncoderView::NoFec),
            e@.wf(),
    {
        Self::new(FecEncoder::NoFec)
    }

    /// Queues packets for the next pass.
    pub fn recv(&mut self, pkts: Vec<Packet>) -> (r: Result<(), Error>)
        requires
            old(self)@.wf(),
            old(self)@.admits(packet_views(pkts@)),
        ensures
            r.is_ok(),
            final(self)@ == (EncoderView {
                queue: old(self)@.queue + packet_views(pkts@),
                ..old(self)@
            }),
            final(self)@.wf(),
    {
        let mut pkts = pkts;
        let ghost waiting = packet_views(self.pkts@);
        let ghost coming = packet_views(pkts@);
        self.pkts.append(&mut pkts);
        proof {
            assert(packet_views(self.pkts@) =~= waiting + coming);
        }
        Ok(())
    }

    /// Runs one pass: protects every queued packet in turn and sends it on,
    /// followed by the repair symbols that fall due with it. The queue is
    /// empty afterwards, whatever comes of the pass.
    pub fn forw(&mut self) -> (r: Result<Vec<Packet>, Error>)
        requires
            old(self)@.wf(),
        ensures
            final(self)@.wf(),
            ({
                let pass = encode(old(self)@.fec, old(self)@.nb_rs, old(self)@.queue);
                &&& final(self)@ == (EncoderView {
                    nb_ss: capped_add(old(self)@.nb_ss, old(self)@.queue.len()),
                    nb_rs: pass.nb_rs,
                    queue: Seq::empty(),
                    fec: pass.fec,
                })
                &&& pass.refused ==> r == Err::<Vec<Packet>, Error>(Error::FecDoubleMetadata)
                &&& !pass.refused ==> r.is_ok() && packet_views(r.unwrap()@) == pass.out
            }),
    {
        let mut out: Vec<Packet> = Vec::new();
        self.nb_ss = count_up(self.nb_ss, self.pkts.len());
        let mut pending: Vec<Packet> = Vec::new();
        std::mem::swap(&mut self.pkts, &mut pending);
        let ghost queue = packet_views(pending@);
        let ghost fec0 = old(self)@.fec;
        let ghost nb0 = old(self)@.nb_rs;
        proof {
            assert(packet_views(self.pkts@) =~= Seq::<PacketView>::empty());
            assert(packet_views(out@) =~= Seq::<PacketView>::empty());
            assert(queue.take(0) =~= Seq::<PacketView>::empty());
        }
        let n = pending.len();
        let mut i: usize = 0;
        for pkt in it: pending
            invariant
                i == it.index(),
                it.seq().len() == n,
                packet_views(it.seq()) == queue,
                queue == old(self)@.queue,
                fec0 == old(self)@.fec,
                nb0 == old(self)@.nb_rs,
                old(self)@.wf(),
                self.fec@.wf(),
                self.nb_ss == capped_add(old(self)@.nb_ss, queue.len()),
                self.pkts@.len() == 0,
                fec0 is Maelstrom ==> self.fec@ is Maelstrom && self.fec@.room() >= queue.len() - i,
                fec0 is NoFec ==> self.fec@ is NoFec,
                !encode(fec0, nb0, queue.take(i as int)).refused,
                encode(fec0, nb0, queue.take(i as int)).fec == self.fec@,
                encode(fec0, nb0, queue.take(i as int)).nb_rs == self.nb_rs,
                encode(fec0, nb0, queue.take(i as int)).out == packet_views(out@),
        {
            let mut pkt = pkt;
            let ghost before = encode(fec0, nb0, queue.take(i as int));
            let ghost sent_before = packet_views(out@);
            proof {
                assert(queue.take(i + 1).drop_last() =~= queue.take(i as int));
                assert(queue.take(i + 1).last() == queue[i as int]);
                assert(pkt@ == queue[i as int]);
                if fec0 is Maelstrom {
                    assert(i < n);
                    assert(queue[i as int].summable());
                    assert(self.fec@.room() >= 1);
                }
            }
            match self.fec.protect_symbol(&mut pkt) {
                Err(e) => {
                    proof {
                        lemma_refused_stays(fec0, nb0, queue, i + 1);
                        assert(packet_views(self.pkts@) =~= Seq::<PacketView>::empty());
                    }
                    return Err(e);
                },
                Ok(()) => {},
            }
            out.push(pkt);
            proof {
                assert(packet_views(out@) =~= sent_before.push(pkt@));
            }
            if self.fec.should_generate_rs() {
                let ghost sent = packet_views(out@);
                let mut repairs = match self.fec.generate_rs() {
                    Ok(v) => v,
                    Err(e) => {
                        return Err(e);
                    },
                };
                let ghost added = packet_views(repairs@);
                self.nb_rs = count_up(self.nb_rs, repairs.len());
                out.append(&mut repairs);
                proof {
                    assert(packet_views(out@) =~= sent + added);
                }
            }
            i = i + 1;
        }
        proof {
            assert(queue.take(n as int) =~= queue);
            assert(packet_views(self.pkts@) =~= Seq::<PacketView>::empty());
        }
        Ok(out)
    }

    /// Settles one source packet that a code outside the node has
    /// protected, given what that code made of the call for repair symbols.
    /// The packet is counted and goes out, followed by the repair symbols,
    /// which are counted too. A code that had no symbol to generate a
    /// repair symbol from yields none; any other error ends the pass.
    pub fn settle(
        &mut self,
        pkt: Packet,
        repairs: Result<Vec<Packet>, Error>,
        out: &mut Vec<Packet>,
    ) -> (r: Result<(), Error>)
        ensures
            final(self)@ == old(self)@.settled(repairs),
            packet_views(final(out)@) == packet_views(old(out)@).push(pkt@) + granted(repairs),
            r == settling(repairs),
    {
        let ghost sent = packet_views(out@);
        self.nb_ss = self.nb_ss.saturating_add(1);
        out.push(pkt);
        proof {
            assert(packet_views(out@) =~= sent.push(pkt@));
        }
        let ghost mid = packet_views(out@);
        match repairs {
            Ok(v) => {
                let mut v = v;
                let ghost added = packet_views(v@);
                self.nb_rs = count_up(self.nb_rs, v.len());
                out.append(&mut v);
                proof {
                    assert(packet_views(out@) =~= mid + added);
                }
                Ok(())
            },
            Err(e) => {
                proof {
                    assert(packet_views(out@) =~= mid + Seq::<PacketView>::empty());
                }
                let quiet = match &e {
                    Error::FecEncoder(text) => *text == "NoSymbolToGenerate".to_owned(),
                    _ => false,
                };
                if quiet {
                    Ok(())
                } else {
                    Err(e)
                }
            },
        }
    }

    /// How many repair symbols have been generated.
    pub fn get_nb_rs(&self) -> (n: u64)
        ensures
            n == self@.nb_rs,
    {
        self.nb_rs
    }

    /// How many data packets have been taken in.
    pub fn get_nb_ss(&self) -> (n: u64)
        ensures
            n == self@.nb_ss,
    {
        self.nb_ss
    }

    /// Hands the decoder's reports to the code.
    pub fn recv_feedback(&mut self, feedback: Vec<(u64, u64)>)
        ensures
            final(self)@ == old(self)@,
    {
        let mut i: usize = 0;
        while i < feedback.len()
            invariant
                0 <= i <= feedback.len(),
                self@ == old(self)@,
            decreases feedback.len() - i,
        {
            let (nb_lost, nb_elems) = feedback[i];
            self.fec.recv_feedback(nb_lost, nb_elems);
            i = i + 1;
        }
    }

    /// The code.
    pub fn get_fec_encoder(&self) -> (fec: &FecEncoder)
        ensures
            fec@ == self@.fec,
    {
        &self.fec
    }
}

/// Once a packet has been turned down, the pass stays where it was.
pub proof fn lemma_refused_stays(fec: FecEncoderView, nb_rs: u64, queue: Seq<PacketView>, n: int)
    requires
        0 <= n <= queue.len(),
        encode(fec, nb_rs, queue.take(n)).refused,
    ensures
        encode(fec, nb_rs, queue) == encode(fec, nb_rs, queue.take(n)),
    decreases queue.len() - n,
{
    if n < queue.len() {
        assert(queue.take(n + 1).drop_last() =~= queue.take(n));
        lemma_refused_stays(fec, nb_rs, queue, n + 1);
    } else {
        assert(queue.take(n) =~= queue);
    }
}


/// A pass keeps the kind of the code and uses up at most one number for
/// each packet.
pub proof fn lemma_encode_room(fec: FecEncoderView, nb_rs: u64, queue: Seq<PacketView>)
    requires
        queue.len() <= fec.room(),
    ensures
        fec is Maelstrom <==> encode(fec, nb_rs, queue).fec is Maelstrom,
        encode(fec, nb_rs, queue).fec.room() + queue.len() >= fec.room(),
    decreases queue.len(),
{
    if queue.len() > 0 {
        lemma_encode_room(fec, nb_rs, queue.drop_last());
    }
}

/// What leaves the encoder is sound, where what the interleaved XOR code
/// takes in has payloads of one word and what passes unprotected is sound:
/// a packet that the code has marked has a payload of one word.
pub proof fn lemma_encode_sound(fec: FecEncoderView, nb_rs: u64, queue: Seq<PacketView>)
    requires
        forall|i: int|
            0 <= i < queue.len() ==> if fec is Maelstrom {
                (#[trigger] queue[i]).summable()
            } else {
                queue[i].sound()
            },
        queue.len() <= fec.room(),
    ensures
        forall|k: int|
            0 <= k < encode(fec, nb_rs, queue).out.len() ==> (#[trigger] encode(
                fec,
                nb_rs,
                queue,
            ).out[k]).sound(),
    decreases queue.len(),
{
    if queue.len() > 0 {
        let front = queue.drop_last();
        let p = queue.last();
        assert forall|i: int| 0 <= i < front.len() implies if fec is Maelstrom {
            (#[trigger] front[i]).summable()
        } else {
            front[i].sound()
        } by {
            assert(front[i] == queue[i]);
        }
        lemma_encode_sound(fec, nb_rs, front);
        lemma_encode_room(fec, nb_rs, front);
        let before = encode(fec, nb_rs, front);
        assert(queue[queue.len() - 1] == p);
        if !(before.refused || before.fec.refuses(p)) {
            let holding = before.fec.protect(p);
            assert(before.fec.protected(p).sound());
            match holding {
                FecEncoderView::Maelstrom(m) => {
                    crate::fec::maelstrom::laws::lemma_repairs_sound(m.layers);
                },
                FecEncoderView::NoFec => {},
            }
        }
    }
}


/// What leaves the encoder speaks of nothing beyond what has entered it.
/// Where the code has numbered its bins, has numbers left for the queue
/// within `bound`, and every queued packet speaks of nothing numbered
/// `bound` or above, the same holds of every packet that goes out, and the
/// code has still given out no number above `bound`.
pub proof fn lemma_encode_below(
    fec: FecEncoderView,
    nb_rs: u64,
    queue: Seq<PacketView>,
    bound: nat,
)
    requires
        all_packets_below(queue, bound),
        queue.len() <= fec.room(),
        fec.wf(),
        fec.next_number() + queue.len() <= bound,
    ensures
        all_packets_below(encode(fec, nb_rs, queue).out, bound),
        encode(fec, nb_rs, queue).fec.wf(),
        encode(fec, nb_rs, queue).fec.next_number() <= fec.next_number() + queue.len(),
    decreases queue.len(),
{
    if queue.len() > 0 {
        let front = queue.drop_last();
        let p = queue.last();
        assert(all_packets_below(front, bound)) by {
            assert forall|i: int| 0 <= i < front.len() implies (#[trigger] front[i]).below(
                bound,
            ) by {
                assert(front[i] == queue[i]);
            }
        }
        lemma_encode_below(fec, nb_rs, front, bound);
        lemma_encode_room(fec, nb_rs, front);
        let before = encode(fec, nb_rs, front);
        let now = encode(fec, nb_rs, queue);
        assert(queue[queue.len() - 1] == p);
        assert(p.below(bound));
        if !(before.refused || before.fec.refuses(p)) {
            let holding = before.fec.protect(p);
            let sent = before.out.push(before.fec.protected(p));
            assert(before.fec.protected(p).below(bound));
            match before.fec {
                FecEncoderView::Maelstrom(m) => {
                    let s = crate::fec::maelstrom::Symbol {
                        id: p.id,
                        word: crate::word::be_word(p.payload),
                    };
                    crate::fec::maelstrom::lemma_protect_wf(m, s);
                    let held = m.protect(s);
                    crate::fec::maelstrom::lemma_round_wf(held);
                    crate::fec::maelstrom::lemma_round_cancels(held);
                    assert forall|k: int| 0 <= k < now.out.len() implies (#[trigger] now.out[k]).below(
                        bound,
                    ) by {
                        if k < before.out.len() {
                            assert(now.out[k] == before.out[k]);
                        } else if k == before.out.len() {
                            assert(now.out[k] == before.fec.protected(p));
                        } else {
                            let r = held.repairs()[k - sent.len()];
                            assert(now.out[k] == r);
                            assert(crate::fec::maelstrom::all_below(
                                crate::fec::maelstrom::listed(r),
                                held.next_ssid as nat,
                            ));
                            assert forall|a: int|
                                0 <= a < crate::fec::maelstrom::listed(r).len() implies (
                            #[trigger] crate::fec::maelstrom::listed(r)[a]) < bound by {}
                        }
                    }
                },
                FecEncoderView::NoFec => {
                    assert forall|k: int| 0 <= k < now.out.len() implies (#[trigger] now.out[k]).below(
                        bound,
                    ) by {
                        if k < before.out.len() {
                            assert(now.out[k] == before.out[k]);
                        }
                    }
                },
            }
        }
    }
}


/// What the encoder's repair symbols list. Where the code has run every
/// round that was due, it has done so again after a pass over the queue, its
/// layers have kept their numbers of bins, and every repair symbol that
/// went out lists exactly a window's worth of symbols, all of one residue
/// class of one layer.
pub proof fn lemma_encode_lists(m: MaelstromEncoderView, nb_rs: u64, queue: Seq<PacketView>)
    requires
        m.wf(),
        m.drained(),
        m.window > 0,
        queue.len() <= u64::MAX - m.next_ssid,
    ensures
        encode(FecEncoderView::Maelstrom(m), nb_rs, queue).fec is Maelstrom,
        encode(FecEncoderView::Maelstrom(m), nb_rs, queue).fec.wf(),
        encode(FecEncoderView::Maelstrom(m), nb_rs, queue).fec.drained(),
        encode(FecEncoderView::Maelstrom(m), nb_rs, queue).fec->Maelstrom_0.sizes() == m.sizes(),
        encode(FecEncoderView::Maelstrom(m), nb_rs, queue).fec->Maelstrom_0.window == m.window,
        forall|k: int|
            0 <= k < encode(FecEncoderView::Maelstrom(m), nb_rs, queue).out.len() ==> {
                let r = #[trigger] encode(FecEncoderView::Maelstrom(m), nb_rs, queue).out[k];
                r.is_repair() ==> lists_a_class(r, m.window as nat, m.sizes())
            },
    decreases queue.len(),
{
    let fec = FecEncoderView::Maelstrom(m);
    if queue.len() > 0 {
        let front = queue.drop_last();
        let p = queue.last();
        lemma_encode_lists(m, nb_rs, front);
        lemma_encode_room(fec, nb_rs, front);
        let before = encode(fec, nb_rs, front);
        let now = encode(fec, nb_rs, queue);
        if !(before.refused || before.fec.refuses(p)) {
            let b = before.fec->Maelstrom_0;
            let s = crate::fec::maelstrom::Symbol { id: p.id, word: crate::word::be_word(p.payload) };
            let held = b.protect(s);
            let sent = before.out.push(before.fec.protected(p));
            crate::fec::maelstrom::lemma_protect_wf(b, s);
            crate::fec::maelstrom::lemma_round_wf(held);
            crate::fec::maelstrom::laws::lemma_step_lists(b, s);
            assert(!before.fec.protected(p).is_repair());
            assert forall|k: int| 0 <= k < now.out.len() implies {
                let r = #[trigger] now.out[k];
                r.is_repair() ==> lists_a_class(r, m.window as nat, m.sizes())
            } by {
                if k < before.out.len() {
                    assert(now.out[k] == before.out[k]);
                } else if k == before.out.len() {
                    assert(now.out[k] == before.fec.protected(p));
                } else {
                    assert(now.out[k] == held.repairs()[k - sent.len()]);
                }
            }
        }
    }
}

/// The symbols that the code reads from a queue of packets.
pub open spec fn symbols_of(queue: Seq<PacketView>) -> Seq<Symbol> {
    queue.map_values(|p: PacketView| Symbol { id: p.id, word: crate::word::be_word(p.payload) })
}

/// A pass over packets without metadata carries the code through their
/// symbols, in order, with each round of repairs run as it falls due.
pub proof fn lemma_encode_carries(m: MaelstromEncoderView, nb_rs: u64, queue: Seq<PacketView>)
    requires
        forall|k: int| 0 <= k < queue.len() ==> (#[trigger] queue[k]).fec.is_none(),
    ensures
        !encode(FecEncoderView::Maelstrom(m), nb_rs, queue).refused,
        encode(FecEncoderView::Maelstrom(m), nb_rs, queue).fec == FecEncoderView::Maelstrom(
            carried(m, symbols_of(queue)),
        ),
    decreases queue.len(),
{
    if queue.len() > 0 {
        let front = queue.drop_last();
        assert forall|k: int| 0 <= k < front.len() implies (#[trigger] front[k]).fec.is_none() by {
            assert(front[k] == queue[k]);
        }
        lemma_encode_carries(m, nb_rs, front);
        assert(symbols_of(queue).drop_last() =~= symbols_of(front));
        assert(queue[queue.len() - 1] == queue.last());
    }
}

/// Whether the queue holds fresh packets numbered on from `first`.
pub open spec fn fresh_from(queue: Seq<PacketView>, first: nat) -> bool {
    forall|k: int| 0 <= k < queue.len() ==> first + k <= u64::MAX && #[trigger] queue[k]
        == PacketView::fresh((first + k) as u64)
}

/// An encoder in step with the source stays in step. Where the queue
/// holds fresh packets numbered on from the code's next number, the code
/// turns none of them down, gives each its own number, and sends nothing
/// but source symbols so numbered and repair symbols.
pub proof fn lemma_encode_in_step(fec: FecEncoderView, nb_rs: u64, queue: Seq<PacketView>)
    requires
        fec is Maelstrom,
        fresh_from(queue, fec.next_number()),
        queue.len() <= fec.room(),
    ensures
        !encode(fec, nb_rs, queue).refused,
        encode(fec, nb_rs, queue).fec is Maelstrom,
        encode(fec, nb_rs, queue).fec.next_number() == fec.next_number() + queue.len(),
        all_in_step(encode(fec, nb_rs, queue).out),
    decreases queue.len(),
{
    if queue.len() > 0 {
        let front = queue.drop_last();
        let p = queue.last();
        assert(fresh_from(front, fec.next_number())) by {
            assert forall|k: int| 0 <= k < front.len() implies fec.next_number() + k <= u64::MAX
                && #[trigger] front[k] == PacketView::fresh((fec.next_number() + k) as u64) by {
                assert(front[k] == queue[k]);
            }
        }
        lemma_encode_in_step(fec, nb_rs, front);
        let before = encode(fec, nb_rs, front);
        let now = encode(fec, nb_rs, queue);
        assert(queue[queue.len() - 1] == p);
        assert(p == PacketView::fresh((fec.next_number() + front.len()) as u64));
        let m = before.fec->Maelstrom_0;
        let s = crate::fec::maelstrom::Symbol { id: p.id, word: crate::word::be_word(p.payload) };
        let held = m.protect(s);
        crate::fec::maelstrom::laws::lemma_repairs_in_step(held.layers);
        let sent = before.out.push(before.fec.protected(p));
        assert(before.fec.protected(p).in_step());
        assert forall|k: int| 0 <= k < now.out.len() implies (#[trigger] now.out[k]).in_step() by {
            if k < before.out.len() {
                assert(now.out[k] == before.out[k]);
            } else if k == before.out.len() {
                assert(now.out[k] == before.fec.protected(p));
            } else {
                assert(now.out[k] == held.repairs()[k - sent.len()]);
            }
        }
    }
}

} // verus!
