//! A packet-level simulator of forward error correction over lossy links.
//!
//! Source symbols travel through an encoder, a dropper and a decoder to a
//! sink. The encoder adds repair symbols, the dropper loses packets as its
//! oracle decides, and the decoder rebuilds what it can.

use vstd::prelude::*;
use vstd::std_specs::cmp::PartialEqSpecImpl;

pub mod drop;
pub mod fec;
pub mod laws;
pub mod node;
pub mod word;

use crate::fec::{floor_sub, FecMetadata, FecMetadataView};
use crate::node::decoder::{decode, outcome_view, Decoder, DecoderView};
use crate::node::dropper::{lemma_passed_members, passed, Dropper, DropperView};
use crate::node::encoder::{
    capped_add, encode, fresh_from, granted, lemma_encode_room, lemma_encode_sound, settling,
    Encoder, EncoderView,
};
use crate::node::{Sink, Source};
use crate::laws::lemma_run_keeps_laws;
use crate::word::{be_seq, word_to_be};

verus! {

/// What can go wrong at a component's boundary.
#[derive(Clone, Debug, PartialEq, Eq)]
pub enum Error {
    /// A node was used out of turn.
    Forward,
    /// The encoder's kernel failed.
    FecEncoder(String),
    /// The decoder's kernel failed.
    FecDecoder(String),
    /// The packet already carries FEC metadata.
    FecDoubleMetadata,
    /// The packet carries no metadata, or metadata of another kind.
    FecWrongMetadata,
    /// A source symbol lies too far beyond the last feedback.
    FeedbackIdTooBig,
    /// The repair symbol added no information.
    UnusedRepair,
    /// The repair symbol protects symbols that have left the window.
    TooOldEquation,
}

/// The unit of data: a sequence number, a payload, and what the FEC layer
/// attached or learned.
#[derive(Clone, Debug)]
pub struct Packet {
    pub(crate) id: u64,
    pub(crate) fec: Option<FecMetadata>,
    /// For a rebuilt packet, how far behind the triggering symbol it lies.
    pub(crate) recovered: Option<u64>,
    pub(crate) data: Vec<u8>,
}

/// A packet as contracts see it.
pub struct PacketView {
    pub id: u64,
    pub payload: Seq<u8>,
    pub fec: Option<FecMetadataView>,
    pub recovered_from: Option<u64>,
}

impl PacketView {
    /// The same packet without its FEC metadata.
    pub open spec fn stripped(self) -> PacketView {
        PacketView { fec: None, ..self }
    }

    /// Whether the packet is marked as a source symbol.
    pub open spec fn is_source(self) -> bool {
        self.fec matches Some(FecMetadataView::Source(_))
    }

    /// Whether the packet is marked as a repair symbol.
    pub open spec fn is_repair(self) -> bool {
        self.fec matches Some(FecMetadataView::Repair(_))
    }

    /// Whether the payload is one word long.
    pub open spec fn is_word(self) -> bool {
        self.payload.len() == 8
    }

    /// Whether the interleaved XOR code can take the packet in: a packet
    /// that it is to protect has a payload of one word, which the code
    /// sums. A packet that it refuses for its metadata may be of any
    /// length.
    pub open spec fn summable(self) -> bool {
        self.fec.is_none() ==> self.is_word()
    }

    /// A packet that carries metadata of the interleaved XOR code has a
    /// payload of one word: the code sums payloads as words.
    pub open spec fn sound(self) -> bool {
        match self.fec {
            Some(FecMetadataView::Source(crate::fec::FecSourceView::Maelstrom(_))) => self.is_word(),
            Some(FecMetadataView::Repair(crate::fec::FecRepairView::Maelstrom(_))) => self.is_word(),
            _ => true,
        }
    }

    /// Whether the packet is as the interleaved XOR code sends it when it
    /// numbers packets as the source does: a source symbol whose number is
    /// the packet's own and which was not rebuilt, or a repair symbol.
    pub open spec fn in_step(self) -> bool {
        match self.fec {
            Some(FecMetadataView::Source(crate::fec::FecSourceView::Maelstrom(ssid))) => ssid
                == self.id && self.recovered_from.is_none(),
            Some(FecMetadataView::Repair(crate::fec::FecRepairView::Maelstrom(_))) => true,
            _ => false,
        }
    }

    /// Whether the packet speaks of nothing numbered `bound` or above: a
    /// repair symbol lists only smaller numbers, and any other packet has a
    /// smaller number.
    pub open spec fn below(self, bound: nat) -> bool {
        if self.is_repair() {
            crate::fec::maelstrom::all_below(crate::fec::maelstrom::listed(self), bound)
        } else {
            self.id < bound
        }
    }

    /// A source packet as it is minted: the payload spells the number.
    pub open spec fn fresh(id: u64) -> PacketView {
        PacketView { id, payload: be_seq(id), fec: None, recovered_from: None }
    }
}

/// The views of a run of packets.
pub open spec fn packet_views(s: Seq<Packet>) -> Seq<PacketView> {
    s.map_values(|p: Packet| p@)
}

impl View for Packet {
    type V = PacketView;

    closed spec fn view(&self) -> PacketView {
        PacketView {
            id: self.id,
            payload: self.data@,
            fec: match self.fec {
                Some(m) => Some(m@),
                None => None,
            },
            recovered_from: self.recovered,
        }
    }
}

impl Packet {
    /// A fresh source packet: its payload spells its sequence number.
    pub fn new(id: u64) -> (p: Self)
        ensures
            p@ == PacketView::fresh(id),
    {
        Self { id, fec: None, recovered: None, data: word_to_be(id) }
    }

    /// A packet rebuilt when the symbol numbered `from` arrived.
    pub fn new_recovered(id: u64, from: u64) -> (p: Self)
        ensures
            p@ == (PacketView { recovered_from: Some(floor_sub(from, id)), ..PacketView::fresh(id) }),
    {
        Self { id, fec: None, recovered: Some(from.saturating_sub(id)), data: word_to_be(id) }
    }

    /// The sequence number.
    pub fn get_id(&self) -> (id: u64)
        ensures
            id == self@.id,
    {
        self.id
    }

    /// The payload.
    pub fn get_data(&self) -> (data: &Vec<u8>)
        ensures
            data@ == self@.payload,
    {
        &self.data
    }

    /// The FEC metadata, if any is attached.
    pub fn get_fec(&self) -> (fec: Option<&FecMetadata>)
        ensures
            match fec {
                Some(m) => self@.fec == Some(m@),
                None => self@.fec.is_none(),
            },
    {
        match &self.fec {
            Some(m) => Some(m),
            None => None,
        }
    }

    /// The distance from which the packet was rebuilt, if it was.
    pub fn get_recovered(&self) -> (r: Option<u64>)
        ensures
            r == self@.recovered_from,
    {
        self.recovered
    }
}

/// Whether two byte strings are the same.
pub fn same_bytes(a: &Vec<u8>, b: &Vec<u8>) -> (same: bool)
    ensures
        same == (a@ == b@),
{
    if a.len() != b.len() {
        return false;
    }
    let mut i: usize = 0;
    while i < a.len()
        invariant
            0 <= i <= a.len(),
            a.len() == b.len(),
            forall|k: int| 0 <= k < i ==> a@[k] == b@[k],
        decreases a.len() - i,
    {
        if a[i] != b[i] {
            return false;
        }
        i = i + 1;
    }
    assert(a@ =~= b@);
    true
}

/// Two packets are equal where number and payload are: what the FEC layer
/// attached does not count.
impl PartialEq for Packet {
    fn eq(&self, other: &Self) -> (same: bool) {
        self.id == other.id && same_bytes(&self.data, &other.data)
    }
}

impl PartialEqSpecImpl for Packet {
    open spec fn obeys_eq_spec() -> bool {
        true
    }

    open spec fn eq_spec(&self, other: &Self) -> bool {
        self@.id == other@.id && self@.payload == other@.payload
    }
}

impl Eq for Packet {

}

/// `Hash::hash` of `u64`: feeds the number to the hasher. Nothing is
/// claimed of the hasher afterwards.
#[verifier::external_body]
fn hash_number<H: std::hash::Hasher>(id: &u64, state: &mut H) {
    std::hash::Hash::hash(id, state);
}

/// `Hash::hash` of `Vec<u8>`: feeds the bytes to the hasher. Nothing is
/// claimed of the hasher afterwards.
#[verifier::external_body]
fn hash_bytes<H: std::hash::Hasher>(data: &Vec<u8>, state: &mut H) {
    std::hash::Hash::hash(data, state);
}

/// A packet is hashed by what equality compares: the number, then the
/// payload.
impl std::hash::Hash for Packet {
    fn hash<H: std::hash::Hasher>(&self, state: &mut H) {
        hash_number(&self.id, state);
        hash_bytes(&self.data, state);
    }
}

impl Default for Packet {
    /// Packet number zero with an empty payload.
    fn default() -> (p: Self)
        ensures
            p@ == (PacketView { id: 0, payload: Seq::<u8>::empty(), fec: None, recovered_from: None }),
    {
        Self { id: 0, fec: None, recovered: None, data: Vec::new() }
    }
}


/// The whole pipeline: source, encoder, dropper, decoder and sink.
pub struct Simulator {
    source: Source,
    encoder: Encoder,
    dropper: Dropper,
    decoder: Decoder,
    sink: Sink,
}

/// The pipeline as contracts see it.
pub struct SimulatorView {
    /// The number of the next source packet.
    pub next_id: u64,
    pub encoder: EncoderView,
    pub dropper: DropperView,
    pub decoder: DecoderView,
    /// What has reached the sink.
    pub sink: Seq<PacketView>,
}

/// Where a tick or a run has come to: the pipeline, and the error that
/// ended it, if one did.
pub struct Ticked {
    pub state: SimulatorView,
    pub failed: Option<Error>,
}

/// Whether a call's result tells of the same end: the error, or none.
pub open spec fn ends_as(r: Result<(), Error>, failed: Option<Error>) -> bool {
    r == match failed {
        Some(e) => Err::<(), Error>(e),
        None => Ok(()),
    }
}

/// Whether every packet speaks of nothing numbered `bound` or above.
pub open spec fn all_packets_below(pkts: Seq<PacketView>, bound: nat) -> bool {
    forall|i: int| 0 <= i < pkts.len() ==> (#[trigger] pkts[i]).below(bound)
}

/// Whether every packet is numbered below `bound`.
pub open spec fn all_ids_below(pkts: Seq<PacketView>, bound: nat) -> bool {
    forall|i: int| 0 <= i < pkts.len() ==> (#[trigger] pkts[i]).id < bound
}

/// Whether every packet is as the interleaved XOR code sends it when it
/// numbers packets as the source does.
pub open spec fn all_in_step(pkts: Seq<PacketView>) -> bool {
    forall|i: int| 0 <= i < pkts.len() ==> (#[trigger] pkts[i]).in_step()
}

/// No rebuilt packet has the number of a packet that came before it.
pub open spec fn rebuilt_once(pkts: Seq<PacketView>) -> bool {
    forall|j: int, k: int|
        0 <= j < k < pkts.len() && (#[trigger] pkts[k]).recovered_from.is_some() ==> (
        #[trigger] pkts[j]).id != pkts[k].id
}

/// Whether every packet is sound.
pub open spec fn all_sound(pkts: Seq<PacketView>) -> bool {
    forall|i: int| 0 <= i < pkts.len() ==> (#[trigger] pkts[i]).sound()
}

impl SimulatorView {
    /// A pipeline that applies no code over a link that loses nothing.
    pub open spec fn fresh() -> Self {
        SimulatorView {
            next_id: 0,
            encoder: EncoderView::fresh(crate::fec::FecEncoderView::NoFec),
            dropper: DropperView::fresh(crate::drop::OracleView::Never),
            decoder: DecoderView::fresh(crate::fec::FecDecoderView::NoFec, None),
            sink: Seq::empty(),
        }
    }

    /// How many decisions the oracle makes in the next tick: one for each
    /// packet that waits at the dropper, and one for each that the encoder
    /// sends.
    pub open spec fn decisions(self) -> nat {
        self.dropper.queue.len() + encode(
            self.encoder.fec,
            self.encoder.nb_rs,
            self.encoder.queue.push(PacketView::fresh(self.next_id)),
        ).out.len()
    }

    /// One tick, given the oracle's decisions. The source mints a packet;
    /// the encoder takes it in after what waits and runs a pass; the
    /// dropper lets through what the decisions spare; the decoder runs a
    /// pass over what is left; the sink collects what the decoder releases.
    /// An error of the encoder or of the decoder ends the tick where it
    /// occurs.
    pub open spec fn tick(self, drops: Seq<bool>) -> Ticked {
        let queued = self.encoder.queue.push(PacketView::fresh(self.next_id));
        let pass = encode(self.encoder.fec, self.encoder.nb_rs, queued);
        let encoder = EncoderView {
            nb_ss: capped_add(self.encoder.nb_ss, queued.len()),
            nb_rs: pass.nb_rs,
            queue: Seq::empty(),
            fec: pass.fec,
        };
        let minted = SimulatorView { next_id: (self.next_id + 1) as u64, encoder, ..self };
        if pass.refused {
            Ticked { state: minted, failed: Some(Error::FecDoubleMetadata) }
        } else {
            let link = DropperView {
                nb_recv: capped_add(self.dropper.nb_recv, pass.out.len()),
                queue: self.dropper.queue + pass.out,
                ..self.dropper
            };
            let arrived = self.decoder.queue + passed(link.queue, drops);
            let released = decode(DecoderView { queue: Seq::empty(), ..self.decoder }, arrived);
            let carried = SimulatorView {
                dropper: link.after(drops),
                decoder: released.state,
                ..minted
            };
            match released.failed {
                Some(e) => Ticked { state: carried, failed: Some(e) },
                None => Ticked {
                    state: SimulatorView { sink: self.sink + released.out, ..carried },
                    failed: None,
                },
            }
        }
    }

    /// Whether `ticks` holds decisions that the oracle may have made for
    /// every tick of a run from here: the right number, and for an oracle of
    /// the library's own those that its rule gives.
    pub open spec fn decided_by(self, ticks: Seq<Seq<bool>>) -> bool
        decreases ticks.len(),
    {
        ticks.len() > 0 ==> {
            &&& self.decided_by(ticks.drop_last())
            &&& self.run(ticks.drop_last()).failed.is_none()
            &&& ticks.last().len() == self.run(ticks.drop_last()).state.decisions()
            &&& self.run(ticks.drop_last()).state.dropper.oracle.allows(ticks.last())
        }
    }

    /// A run, given the oracle's decisions for each of its ticks: tick
    /// after tick, until an error ends it.
    pub open spec fn run(self, ticks: Seq<Seq<bool>>) -> Ticked
        decreases ticks.len(),
    {
        if ticks.len() == 0 {
            Ticked { state: self, failed: None }
        } else {
            let before = self.run(ticks.drop_last());
            if before.failed.is_some() {
                before
            } else {
                before.state.tick(ticks.last())
            }
        }
    }

    /// Nothing in the pipeline speaks of a packet that the source has not
    /// minted: the encoder has given out no number beyond the source's,
    /// no packet on the way and no equation of the decoder speaks of a
    /// number at or above the source's next, and every packet in the sink
    /// is numbered below it.
    pub open spec fn within_run(self) -> bool {
        let bound = self.next_id as nat;
        &&& self.encoder.fec.wf()
        &&& self.encoder.fec.next_number() + self.encoder.queue.len() <= bound
        &&& all_packets_below(self.encoder.queue, bound)
        &&& all_packets_below(self.dropper.queue, bound)
        &&& all_packets_below(self.decoder.queue, bound)
        &&& self.decoder.fec.below(bound)
        &&& all_ids_below(self.sink, bound)
    }

    /// The interleaved XOR code runs in step with the source: the encoder
    /// numbers packets as the source does, what is on the way is as the
    /// encoder sends it, the decoder knows the number of every packet in
    /// the sink, and no rebuilt packet in the sink has the number of a
    /// packet that reached the sink before it.
    pub open spec fn in_step(self) -> bool {
        &&& self.encoder.fec is Maelstrom
        &&& fresh_from(self.encoder.queue, self.encoder.fec.next_number())
        &&& self.encoder.fec.next_number() + self.encoder.queue.len() == self.next_id
        &&& all_in_step(self.dropper.queue)
        &&& all_in_step(self.decoder.queue)
        &&& self.decoder.tracks(self.sink)
        &&& rebuilt_once(self.sink)
    }

    /// Whether the pipeline can run `n` more packets: the source and the
    /// encoder have numbers left for them, both codes are in order, and
    /// what already waits on the way to a decoder of the interleaved XOR
    /// code is sound.
    pub open spec fn ready(self, n: nat) -> bool {
        &&& self.next_id + n <= u64::MAX
        &&& self.encoder.wf()
        &&& self.encoder.queue.len() + n <= self.encoder.fec.room()
        &&& self.decoder.wf()
        &&& self.decoder.fec is Maelstrom ==> all_sound(self.dropper.queue) && (self.encoder.fec
            is NoFec ==> all_sound(self.encoder.queue))
    }
}

impl View for Simulator {
    type V = SimulatorView;

    closed spec fn view(&self) -> SimulatorView {
        SimulatorView {
            next_id: self.source.next_id(),
            encoder: self.encoder@,
            dropper: self.dropper@,
            decoder: self.decoder@,
            sink: self.sink@,
        }
    }
}

impl Simulator {
    /// A pipeline that applies no code over a link that loses nothing.
    pub fn new() -> (s: Self)
        ensures
            s@ == SimulatorView::fresh(),
    {
        Self {
            source: Source::new(),
            encoder: Encoder::new_simple(),
            dropper: Dropper::new_simple(),
            decoder: Decoder::new_simple(),
            sink: Sink::new(),
        }
    }

    /// One tick: the source mints a packet, the encoder protects it, the
    /// dropper passes or loses what the encoder sent, the decoder takes in
    /// what is left, the encoder hears the decoder's reports, and the sink
    /// collects what the decoder released. The first error of a node ends
    /// the tick.
    fn tick(&mut self) -> (r: Result<(), Error>)
        requires
            old(self)@.ready(1),
        ensures
            exists|drops: Seq<bool>|
                drops.len() == old(self)@.decisions() && old(self)@.dropper.oracle.allows(drops)
                    && final(self)@ == (#[trigger] old(self)@.tick(drops)).state && ends_as(
                    r,
                    old(self)@.tick(drops).failed,
                ),
            final(self)@.next_id == old(self)@.next_id + 1,
            r.is_ok() ==> final(self)@.ready(0),
            r.is_ok() ==> final(self)@.encoder.queue.len() == 0 && final(self)@.encoder.fec.room()
                + 1 >= old(self)@.encoder.fec.room() - old(self)@.encoder.queue.len(),
            old(self)@.sink.is_prefix_of(final(self)@.sink),
    {
        let ghost tick = self@;
        let pkt = self.source.gen();
        let mut minted: Vec<Packet> = Vec::new();
        minted.push(pkt);
        proof {
            assert(packet_views(minted@) =~= seq![PacketView::fresh(tick.next_id)]);
            assert(PacketView::fresh(tick.next_id).is_word()) by {
                crate::word::lemma_word_of_bytes(tick.next_id);
            }
        }
        match self.encoder.recv(minted) {
            Err(e) => {
                return Err(e);
            },
            Ok(()) => {},
        }
        let ghost queued = self.encoder@;
        let ghost pass = encode(tick.encoder.fec, tick.encoder.nb_rs, queued.queue);
        proof {
            assert(queued.queue =~= tick.encoder.queue.push(PacketView::fresh(tick.next_id)));
            assert forall|i: int| 0 <= i < queued.queue.len() implies if queued.fec
                is Maelstrom {
                (#[trigger] queued.queue[i]).summable()
            } else {
                tick.decoder.fec is Maelstrom ==> queued.queue[i].sound()
            } by {
                if i < tick.encoder.queue.len() {
                    assert(queued.queue[i] == tick.encoder.queue[i]);
                }
            }
            lemma_encode_room(queued.fec, queued.nb_rs, queued.queue);
            if tick.decoder.fec is Maelstrom {
                lemma_encode_sound(queued.fec, queued.nb_rs, queued.queue);
            }
        }
        let packets = match self.encoder.forw() {
            Err(e) => {
                proof {
                    let idle = tick.dropper.oracle.decisions(tick.decisions());
                    crate::drop::lemma_decisions_len(tick.dropper.oracle, tick.decisions());
                    assert(self@ == tick.tick(idle).state);
                    assert(ends_as(Err(e), tick.tick(idle).failed));
                }
                return Err(e);
            },
            Ok(v) => v,
        };
        let ghost sent = packet_views(packets@);
        let ghost waiting = self.dropper@.queue;
        match self.dropper.recv(packets) {
            Err(e) => {
                return Err(e);
            },
            Ok(()) => {},
        }
        let ghost link = self.dropper@;
        let packets = match self.dropper.forw() {
            Err(e) => {
                return Err(e);
            },
            Ok(v) => v,
        };
        let ghost through = packet_views(packets@);
        let ghost drops = choose|drops: Seq<bool>| #[trigger]
            link.forwards(drops, self.dropper@, through);
        proof {
            lemma_passed_members(link.queue, drops);
            if tick.decoder.fec is Maelstrom {
                assert forall|k: int| 0 <= k < through.len() implies (#[trigger] through[k]).sound() by {
                    let x = through[k];
                    assert(link.queue.contains(x));
                    let w = choose|w: int| 0 <= w < link.queue.len() && link.queue[w] == x;
                    if w < waiting.len() {
                        assert(waiting[w] == x);
                    } else {
                        assert(sent[w - waiting.len()] == x);
                    }
                }
            }
        }
        match self.decoder.recv(packets) {
            Err(e) => {
                return Err(e);
            },
            Ok(()) => {},
        }
        let (packets, feedback) = match self.decoder.forw() {
            Err(e) => {
                proof {
                    assert(self@ == tick.tick(drops).state);
                    assert(ends_as(Err(e), tick.tick(drops).failed));
                }
                return Err(e);
            },
            Ok(v) => v,
        };
        if feedback.len() > 0 {
            self.encoder.recv_feedback(feedback);
        }
        self.sink.recv_multiple(packets);
        proof {
            assert(self@ == tick.tick(drops).state);
            assert(ends_as(Ok(()), tick.tick(drops).failed));
        }
        Ok(())
    }

    /// Runs `nb_packets` ticks. In each, the source mints a packet, the
    /// encoder protects it, the dropper passes or loses what the encoder
    /// sent, the decoder takes in what is left, the encoder hears the
    /// decoder's reports, and the sink collects what the decoder released.
    /// The first error of a node ends the run. Whatever the link loses, no
    /// packet reaches the sink that is numbered beyond what the source has
    /// minted.
    pub fn run(&mut self, nb_packets: u64) -> (r: Result<(), Error>)
        requires
            old(self)@.ready(nb_packets as nat),
        ensures
            exists|ticks: Seq<Seq<bool>>|
                old(self)@.decided_by(ticks) && final(self)@ == (#[trigger] old(self)@.run(
                    ticks,
                )).state && ends_as(r, old(self)@.run(ticks).failed) && ticks.len() <= nb_packets
                    && (r.is_ok() ==> ticks.len() == nb_packets),
            r.is_ok() ==> final(self)@.next_id == old(self)@.next_id + nb_packets,
            r.is_ok() ==> final(self)@.ready(0),
            final(self)@.next_id <= old(self)@.next_id + nb_packets,
            old(self)@.sink.is_prefix_of(final(self)@.sink),
            old(self)@.within_run() ==> final(self)@.within_run(),
            old(self)@.in_step() ==> final(self)@.in_step(),
    {
        let ghost start = self@;
        let ghost mut ticks: Seq<Seq<bool>> = Seq::empty();
        let mut done: u64 = 0;
        while done < nb_packets
            invariant
                0 <= done <= nb_packets,
                start == old(self)@,
                ticks.len() == done,
                start.decided_by(ticks),
                start.run(ticks).failed.is_none(),
                start.run(ticks).state == self@,
                self@.ready((nb_packets - done) as nat),
                self@.next_id == old(self)@.next_id + done,
                old(self)@.sink.is_prefix_of(self@.sink),
            decreases nb_packets - done,
        {
            let ghost before = self@;
            let ghost so_far = ticks;
            let r = self.tick();
            proof {
                let drops = choose|drops: Seq<bool>|
                    drops.len() == before.decisions() && before.dropper.oracle.allows(drops)
                        && self@ == (#[trigger] before.tick(drops)).state && ends_as(
                        r,
                        before.tick(drops).failed,
                    );
                ticks = so_far.push(drops);
                assert(ticks.drop_last() =~= so_far);
                assert(ticks.last() == drops);
            }
            match r {
                Err(e) => {
                    proof {
                        lemma_run_keeps_laws(start, ticks);
                    }
                    return Err(e);
                },
                Ok(()) => {},
            }
            done = done + 1;
        }
        proof {
            lemma_run_keeps_laws(start, ticks);
        }
        Ok(())
    }

    /// The first step of a tick that a code outside the pipeline drives:
    /// the source mints the next packet, for that code to protect.
    pub fn mint(&mut self) -> (p: Packet)
        requires
            old(self)@.next_id < u64::MAX,
        ensures
            p@ == PacketView::fresh(old(self)@.next_id),
            final(self)@ == (SimulatorView {
                next_id: (old(self)@.next_id + 1) as u64,
                ..old(self)@
            }),
    {
        self.source.gen()
    }

    /// The second step: the encoder node settles the packet that the code
    /// has protected, with the repair symbols that the code granted, and the
    /// dropper passes or loses them along with what waits at it. Returns
    /// what came through, for the code to decode. An error of the code ends
    /// the tick, unless it only says that there was nothing to repair.
    pub fn send(&mut self, pkt: Packet, repairs: Result<Vec<Packet>, Error>) -> (r: Result<
        Vec<Packet>,
        Error,
    >)
        ensures
            final(self)@.encoder == old(self)@.encoder.settled(repairs),
            final(self)@.next_id == old(self)@.next_id,
            final(self)@.decoder == old(self)@.decoder,
            final(self)@.sink == old(self)@.sink,
            settling(repairs) matches Err(e) ==> {
                &&& r == Err::<Vec<Packet>, Error>(e)
                &&& final(self)@.dropper == old(self)@.dropper
            },
            settling(repairs) is Ok ==> r.is_ok() && exists|drops: Seq<bool>| #[trigger]
                old(self)@.dropper.receiving(seq![pkt@] + granted(repairs)).forwards(
                    drops,
                    final(self)@.dropper,
                    packet_views(r.unwrap()@),
                ),
    {
        let mut sent: Vec<Packet> = Vec::new();
        proof {
            assert(packet_views(sent@) =~= Seq::<PacketView>::empty());
        }
        match self.encoder.settle(pkt, repairs, &mut sent) {
            Err(e) => {
                return Err(e);
            },
            Ok(()) => {},
        }
        proof {
            assert(packet_views(sent@) =~= seq![pkt@] + granted(repairs));
        }
        match self.dropper.recv(sent) {
            Err(e) => {
                return Err(e);
            },
            Ok(()) => {},
        }
        self.dropper.forw()
    }

    /// The third step, once for each packet that came through: the decoder
    /// node settles the packet, given what the code made of it. What the
    /// node releases and the feedback reports that fall due are added to
    /// `released` and `reports`.
    pub fn deliver(
        &mut self,
        pkt: Packet,
        outcome: Result<Vec<Packet>, Error>,
        released: &mut Vec<Packet>,
        reports: &mut Vec<(u64, u64)>,
    ) -> (r: Result<(), Error>)
        requires
            old(self)@.decoder.feedback matches Some(fb) ==> fb.wf(),
        ensures
            ({
                let step = old(self)@.decoder.settle(pkt@, outcome_view(outcome));
                &&& final(self)@ == (SimulatorView { decoder: step.next, ..old(self)@ })
                &&& ends_as(r, step.failed)
                &&& step.failed.is_none() ==> packet_views(final(released)@) == packet_views(
                    old(released)@,
                ) + step.out
                &&& final(reports)@ == old(reports)@ + step.reports
            }),
            final(self)@.decoder.feedback matches Some(fb) ==> fb.wf(),
    {
        self.decoder.settle(pkt, outcome, released, reports)
    }

    /// The last step: the sink collects what the decoder node released.
    pub fn collect(&mut self, released: Vec<Packet>)
        ensures
            final(self)@ == (SimulatorView {
                sink: old(self)@.sink + packet_views(released@),
                ..old(self)@
            }),
    {
        self.sink.recv_multiple(released);
    }

    /// The sink.
    pub fn get_sink(&self) -> (s: &Sink)
        ensures
            s@ == self@.sink,
    {
        &self.sink
    }

    /// Puts another encoder in place.
    pub fn set_encoder(&mut self, encoder: Encoder)
        ensures
            final(self)@ == (SimulatorView { encoder: encoder@, ..old(self)@ }),
    {
        self.encoder = encoder;
    }

    /// Puts another dropper in place.
    pub fn set_dropper(&mut self, dropper: Dropper)
        ensures
            final(self)@ == (SimulatorView { dropper: dropper@, ..old(self)@ }),
    {
        self.dropper = dropper;
    }

    /// Puts another decoder in place.
    pub fn set_decoder(&mut self, decoder: Decoder)
        ensures
            final(self)@ == (SimulatorView { decoder: decoder@, ..old(self)@ }),
    {
        self.decoder = decoder;
    }

    /// The encoder.
    pub fn get_encoder(&self) -> (e: &Encoder)
        ensures
            e@ == self@.encoder,
    {
        &self.encoder
    }

    /// The dropper.
    pub fn get_dropper(&self) -> (d: &Dropper)
        ensures
            d@ == self@.dropper,
    {
        &self.dropper
    }

    /// The decoder.
    pub fn get_decoder(&self) -> (d: &Decoder)
        ensures
            d@ == self@.decoder,
    {
        &self.decoder
    }
}

impl Default for Simulator {
    fn default() -> (s: Self)
        ensures
            s@ == SimulatorView::fresh(),
    {
        Self::new()
    }
}

} // verus!
