//! The decoder node and the feedback it reports.

use vstd::prelude::*;
use bitmaps::Bitmap;

use crate::fec::maelstrom::bumped;
use crate::fec::FecDecoder;
use crate::fec::FecDecoderView;
use crate::fec::FecMetadata;
use crate::fec::FecSourceMetadata;
use crate::fec::FecMetadataView;
use crate::node::encoder::capped_add;
use crate::node::encoder::count_up;
use crate::all_ids_below;
use crate::all_in_step;
use crate::rebuilt_once;
use crate::all_packets_below;
use crate::packet_views;
use crate::word::be_word;
use crate::Error;
use crate::Packet;
use crate::PacketView;

verus! {

/// The bitmap of one feedback round: 1024 bits of `bitmaps::Bitmap`.
#[verifier::external_body]
pub struct SeenBits {
    bits: Bitmap<1024>,
}

/// The indices of the bits that are set.
pub uninterp spec fn seen_bits(b: SeenBits) -> Set<int>;

/// `Bitmap::new`: a bitmap with every bit cleared.
#[verifier::external_body]
fn bitmap_new() -> (b: SeenBits)
    ensures
        seen_bits(b) == Set::<int>::empty(),
{
    SeenBits { bits: Bitmap::new() }
}

/// `Bitmap::set` with the value `true`: the bit at `index` is set and the
/// others stay as they are. The index must lie within the bitmap.
#[verifier::external_body]
fn bitmap_mark(b: &mut SeenBits, index: usize)
    requires
        index < 1024,
    ensures
        seen_bits(*final(b)) == seen_bits(*old(b)).insert(index as int),
{
    b.bits.set(index, true);
}

/// `Bitmap::len`: the number of bits that are set.
#[verifier::external_body]
fn bitmap_count(b: &SeenBits) -> (n: usize)
    ensures
        n == seen_bits(*b).len(),
{
    b.bits.len()
}

/// The most source symbols that one feedback round can tell apart.
pub const FEEDBACK_SPAN: u64 = 1024;

/// Watches which source symbols arrive and reports, every so often, how
/// many were missing.
pub struct DecoderFeedback {
    /// Source symbols between two reports.
    frequency: u64,
    /// The source symbol at which the last report was made.
    last_feedback: u64,
    /// Which symbols have arrived since, by their distance from the last
    /// report.
    bitmap: SeenBits,
}

/// A feedback round as contracts see it.
pub struct DecoderFeedbackView {
    pub frequency: u64,
    pub anchor: u64,
    pub seen: Set<int>,
}

impl DecoderFeedbackView {
    /// Only distances within the span are marked.
    pub open spec fn wf(self) -> bool {
        &&& self.seen.finite()
        &&& forall|d: int| self.seen.contains(d) ==> 0 <= d < FEEDBACK_SPAN
    }

    /// A round that starts at `anchor` with nothing seen.
    pub open spec fn started(frequency: u64, anchor: u64) -> Self {
        DecoderFeedbackView { frequency, anchor, seen: Set::empty() }
    }

    /// Whether the symbol `id` can be placed: it does not lie before the
    /// anchor, nor exactly one span beyond it, where the bitmap ends.
    pub open spec fn fits(self, id: u64) -> bool {
        id >= self.anchor && id - self.anchor != FEEDBACK_SPAN
    }

    /// Whether the symbol `id` lies beyond the span.
    pub open spec fn too_far(self, id: u64) -> bool {
        id - self.anchor > FEEDBACK_SPAN
    }

    /// The round with the symbol `id` marked.
    pub open spec fn marked(self, id: u64) -> Self {
        DecoderFeedbackView { seen: self.seen.insert(id - self.anchor), ..self }
    }

    /// Whether a report is due at the symbol `id`.
    pub open spec fn due(self, id: u64) -> bool {
        id - self.anchor >= self.frequency
    }

    /// The report that is made at the symbol `id`: how many of the symbols
    /// since the anchor are missing, and how many there were.
    pub open spec fn report(self, id: u64) -> (u64, u64) {
        let total = id - self.anchor;
        let seen = self.seen.len();
        (
            if total >= seen {
                (total - seen) as u64
            } else {
                0
            },
            total as u64,
        )
    }
}

impl View for DecoderFeedback {
    type V = DecoderFeedbackView;

    closed spec fn view(&self) -> DecoderFeedbackView {
        DecoderFeedbackView {
            frequency: self.frequency,
            anchor: self.last_feedback,
            seen: seen_bits(self.bitmap),
        }
    }
}

impl DecoderFeedback {
    /// A watcher that reports every `frequency` source symbols, in a round
    /// that starts at zero.
    pub fn new(frequency: u64) -> (f: Self)
        ensures
            f@ == DecoderFeedbackView::started(frequency, 0),
            f@.wf(),
    {
        Self { frequency, last_feedback: 0, bitmap: bitmap_new() }
    }

    /// Whether `recv_ss` can place the symbol `id`.
    pub fn fits(&self, id: u64) -> (b: bool)
        ensures
            b == self@.fits(id),
    {
        id >= self.last_feedback && id - self.last_feedback != FEEDBACK_SPAN
    }

    /// Marks the source symbol `id` as seen. A symbol beyond the span is
    /// refused, and nothing changes.
    pub fn recv_ss(&mut self, id: u64) -> (r: Result<(), Error>)
        requires
            old(self)@.wf(),
            old(self)@.fits(id),
        ensures
            final(self)@.wf(),
            old(self)@.too_far(id) ==> {
                &&& r == Err::<(), Error>(Error::FeedbackIdTooBig)
                &&& final(self)@ == old(self)@
            },
            !old(self)@.too_far(id) ==> r.is_ok() && final(self)@ == old(self)@.marked(id),
    {
        let relative_id = id - self.last_feedback;
        if relative_id > FEEDBACK_SPAN {
            return Err(Error::FeedbackIdTooBig);
        }
        bitmap_mark(&mut self.bitmap, relative_id as usize);
        Ok(())
    }

    /// How many symbols have been seen in this round.
    pub fn nb_recv(&self) -> (n: u64)
        requires
            self@.wf(),
        ensures
            n == self@.seen.len(),
    {
        proof {
            lemma_marks_bounded(self@.seen);
        }
        bitmap_count(&self.bitmap) as u64
    }

    /// How far the symbol `id` lies beyond the last report.
    pub fn nb_since_last(&self, id: u64) -> (n: u64)
        requires
            id >= self@.anchor,
        ensures
            n == id - self@.anchor,
    {
        id - self.last_feedback
    }

    /// Starts a new round at the symbol `id`.
    pub fn reset(&mut self, id: u64)
        ensures
            final(self)@ == DecoderFeedbackView::started(old(self)@.frequency, id),
            final(self)@.wf(),
    {
        self.last_feedback = id;
        self.bitmap = bitmap_new();
    }

    /// Whether a report is due at the symbol `id`.
    pub fn should_send_feedback(&self, id: u64) -> (b: bool)
        requires
            id >= self@.anchor,
        ensures
            b == self@.due(id),
    {
        id - self.last_feedback >= self.frequency
    }
}

/// A set of marks within the span has at most as many members as the span.
pub proof fn lemma_marks_bounded(seen: Set<int>)
    requires
        seen.finite(),
        forall|d: int| seen.contains(d) ==> 0 <= d < FEEDBACK_SPAN,
    ensures
        seen.len() <= FEEDBACK_SPAN,
{
    let span = vstd::set_lib::set_int_range(0, FEEDBACK_SPAN as int);
    vstd::set_lib::lemma_int_range(0, FEEDBACK_SPAN as int);
    vstd::set_lib::lemma_len_subset(seen, span);
}


/// Whether losses make the error usual: a repair symbol that came too late
/// or that told nothing new is passed over.
pub open spec fn passed_over(e: Error) -> bool {
    e == Error::TooOldEquation || e == Error::UnusedRepair
}

/// The error with which the code ends the pass, if it does.
pub open spec fn ending(outcome: Result<Seq<PacketView>, Error>) -> Option<Error> {
    match outcome {
        Err(e) => if passed_over(e) {
            None
        } else {
            Some(e)
        },
        Ok(_) => None,
    }
}

/// The packets that the code rebuilt: none where it refused.
pub open spec fn yield_of(outcome: Result<Seq<PacketView>, Error>) -> Seq<PacketView> {
    match outcome {
        Ok(s) => s,
        Err(_) => Seq::empty(),
    }
}

/// What the code made of a packet, as contracts see it.
pub open spec fn outcome_view(outcome: Result<Vec<Packet>, Error>) -> Result<
    Seq<PacketView>,
    Error,
> {
    match outcome {
        Ok(v) => Ok(packet_views(v@)),
        Err(e) => Err(e),
    }
}

/// The numbers of a run of packets.
pub open spec fn ids_of(pkts: Seq<PacketView>) -> Seq<u64> {
    pkts.map_values(|p: PacketView| p.id)
}

/// What the node makes of one packet.
pub struct Step {
    /// The node afterwards.
    pub next: DecoderView,
    /// What goes out.
    pub out: Seq<PacketView>,
    /// The feedback reports that fall due.
    pub reports: Seq<(u64, u64)>,
    /// The error that ends the pass, if one does.
    pub failed: Option<Error>,
}

/// How far a pass over the decoder's queue has come.
pub struct Decoded {
    pub state: DecoderView,
    pub out: Seq<PacketView>,
    pub reports: Seq<(u64, u64)>,
    pub failed: Option<Error>,
}

/// The decoder node.
pub struct Decoder {
    /// Data packets received.
    nb_ss: u64,
    /// Repair packets received.
    nb_rs: u64,
    /// Packets rebuilt.
    nb_recovered: u64,
    /// The packets that wait to be processed, in order.
    pkts: Vec<Packet>,
    /// The code.
    fec: FecDecoder,
    /// What watches the arrivals for the encoder's sake, if anything does.
    feedback: Option<DecoderFeedback>,
    /// The numbers of the packets rebuilt, if a trace is kept.
    trace: Option<Vec<u64>>,
}

/// The decoder node as contracts see it.
pub struct DecoderView {
    pub nb_ss: u64,
    pub nb_rs: u64,
    pub nb_recovered: u64,
    pub queue: Seq<PacketView>,
    pub fec: FecDecoderView,
    pub feedback: Option<DecoderFeedbackView>,
    pub trace: Option<Seq<u64>>,
}

impl DecoderView {
    /// A node that has seen nothing and keeps no trace.
    pub open spec fn fresh(fec: FecDecoderView, feedback: Option<DecoderFeedbackView>) -> Self {
        DecoderView {
            nb_ss: 0,
            nb_rs: 0,
            nb_recovered: 0,
            queue: Seq::empty(),
            fec,
            feedback,
            trace: None,
        }
    }

    /// Whether the code can read every packet of `queue`.
    pub open spec fn admits(self, queue: Seq<PacketView>) -> bool {
        forall|i: int| 0 <= i < queue.len() ==> self.fec.admits(#[trigger] queue[i])
    }

    /// The code and the feedback are in order, and the code can read what
    /// waits.
    pub open spec fn wf(self) -> bool {
        &&& self.fec.wf()
        &&& self.feedback matches Some(fb) ==> fb.wf()
        &&& self.admits(self.queue)
    }

    /// The interleaved XOR code knows the number of every packet of
    /// `sink`.
    pub open spec fn tracks(self, sink: Seq<PacketView>) -> bool {
        self.fec matches FecDecoderView::Maelstrom(m) && forall|j: int|
            0 <= j < sink.len() ==> m.known.dom().contains((#[trigger] sink[j]).id)
    }

    /// The node with `rebuilt` counted and noted in the trace.
    pub open spec fn credited(self, rebuilt: Seq<PacketView>) -> Self {
        DecoderView {
            nb_recovered: capped_add(self.nb_recovered, rebuilt.len()),
            trace: match self.trace {
                Some(t) => Some(t + ids_of(rebuilt)),
                None => None,
            },
            ..self
        }
    }

    /// What the feedback makes of the source symbol numbered `id`. A number
    /// that the round cannot place, or that lies beyond its span, is too
    /// big. Otherwise the number is marked, and if a report is due it is
    /// made and a new round starts at that number.
    pub open spec fn observe(fb: DecoderFeedbackView, id: u64) -> (
        DecoderFeedbackView,
        Seq<(u64, u64)>,
        Option<Error>,
    ) {
        if !fb.fits(id) || fb.too_far(id) {
            (fb, Seq::empty(), Some(Error::FeedbackIdTooBig))
        } else if fb.marked(id).due(id) {
            (
                DecoderFeedbackView::started(fb.frequency, id),
                seq![fb.marked(id).report(id)],
                None,
            )
        } else {
            (fb.marked(id), Seq::empty(), None)
        }
    }

    /// What the node makes of the packet `p`, given what the code made of
    /// it. A source symbol or a repair symbol is counted. An error of the
    /// code ends the pass, unless it is one that losses make usual. Else
    /// the rebuilt packets are counted and go out; for a source symbol the
    /// feedback takes note of its number, and the symbol goes out without
    /// its metadata. A packet without metadata goes out as it is.
    pub open spec fn settle(self, p: PacketView, outcome: Result<Seq<PacketView>, Error>) -> Step {
        match p.fec {
            None => Step { next: self, out: seq![p], reports: Seq::empty(), failed: None },
            Some(FecMetadataView::Repair(_)) => {
                let counted = DecoderView { nb_rs: bumped(self.nb_rs), ..self };
                match ending(outcome) {
                    Some(e) => Step {
                        next: counted,
                        out: Seq::empty(),
                        reports: Seq::empty(),
                        failed: Some(e),
                    },
                    None => Step {
                        next: counted.credited(yield_of(outcome)),
                        out: yield_of(outcome),
                        reports: Seq::empty(),
                        failed: None,
                    },
                }
            },
            Some(FecMetadataView::Source(source)) => {
                let counted = DecoderView { nb_ss: bumped(self.nb_ss), ..self };
                let rebuilt = yield_of(outcome);
                match (ending(outcome), self.feedback) {
                    (Some(e), _) => Step {
                        next: counted,
                        out: Seq::empty(),
                        reports: Seq::empty(),
                        failed: Some(e),
                    },
                    (None, None) => Step {
                        next: counted.credited(rebuilt),
                        out: rebuilt.push(p.stripped()),
                        reports: Seq::empty(),
                        failed: None,
                    },
                    (None, Some(fb)) => {
                        let (fb_next, reports, failed) = Self::observe(fb, source.ssid());
                        Step {
                            next: DecoderView {
                                feedback: Some(fb_next),
                                ..counted.credited(rebuilt)
                            },
                            out: if failed.is_some() {
                                Seq::empty()
                            } else {
                                rebuilt.push(p.stripped())
                            },
                            reports,
                            failed,
                        }
                    },
                }
            },
        }
    }

    /// What the code makes of the packet `p`.
    pub open spec fn outcome(self, p: PacketView) -> Result<Seq<PacketView>, Error> {
        match p.fec {
            None => Ok(Seq::empty()),
            Some(FecMetadataView::Source(_)) => self.fec.source_outcome(p),
            Some(FecMetadataView::Repair(_)) => self.fec.repair_outcome(p),
        }
    }

    /// The code after the packet `p`.
    pub open spec fn fec_after(self, p: PacketView) -> FecDecoderView {
        match p.fec {
            None => self.fec,
            Some(FecMetadataView::Source(_)) => self.fec.after_source(p),
            Some(FecMetadataView::Repair(_)) => self.fec.after_repair(p),
        }
    }

    /// What the node makes of the packet `p`.
    pub open spec fn absorb(self, p: PacketView) -> Step {
        (DecoderView { fec: self.fec_after(p), ..self }).settle(p, self.outcome(p))
    }
}

/// One pass over `queue`, packet after packet, until an error ends it.
pub open spec fn decode(start: DecoderView, queue: Seq<PacketView>) -> Decoded
    decreases queue.len(),
{
    if queue.len() == 0 {
        Decoded { state: start, out: Seq::empty(), reports: Seq::empty(), failed: None }
    } else {
        let before = decode(start, queue.drop_last());
        if before.failed.is_some() {
            before
        } else {
            let step = before.state.absorb(queue.last());
            Decoded {
                state: step.next,
                out: before.out + step.out,
                reports: before.reports + step.reports,
                failed: step.failed,
            }
        }
    }
}

/// Once an error has ended the pass, it stays where it was.
pub proof fn lemma_failed_stays(start: DecoderView, queue: Seq<PacketView>, n: int)
    requires
        0 <= n <= queue.len(),
        decode(start, queue.take(n)).failed.is_some(),
    ensures
        decode(start, queue) == decode(start, queue.take(n)),
    decreases queue.len() - n,
{
    if n < queue.len() {
        assert(queue.take(n + 1).drop_last() =~= queue.take(n));
        lemma_failed_stays(start, queue, n + 1);
    } else {
        assert(queue.take(n) =~= queue);
    }
}

impl View for Decoder {
    type V = DecoderView;

    closed spec fn view(&self) -> DecoderView {
        DecoderView {
            nb_ss: self.nb_ss,
            nb_rs: self.nb_rs,
            nb_recovered: self.nb_recovered,
            queue: packet_views(self.pkts@),
            fec: self.fec@,
            feedback: match self.feedback {
                Some(fb) => Some(fb@),
                None => None,
            },
            trace: match self.trace {
                Some(t) => Some(t@),
                None => None,
            },
        }
    }
}

impl Decoder {
    /// A node that has seen nothing, with its code and, if it is to report
    /// losses, its feedback.
    pub fn new(fec: FecDecoder, feedback: Option<DecoderFeedback>) -> (d: Self)
        ensures
            d@ == DecoderView::fresh(
                fec@,
                match feedback {
                    Some(fb) => Some(fb@),
                    None => None,
                },
            ),
    {
        let d = Self {
            nb_ss: 0,
            nb_rs: 0,
            nb_recovered: 0,
            pkts: Vec::new(),
            fec,
            feedback,
            trace: None,
        };
        assert(d@.queue =~= Seq::<PacketView>::empty());
        d
    }

    /// A node that applies no code and reports nothing.
    pub fn new_simple() -> (d: Self)
        ensures
            d@ == DecoderView::fresh(FecDecoderView::NoFec, None),
            d@.wf(),
    {
        Self::new(FecDecoder::NoFec, None)
    }

    /// Queues packets for the next pass.
    pub fn recv(&mut self, pkts: Vec<Packet>) -> (r: Result<(), Error>)
        requires
            old(self)@.wf(),
            old(self)@.admits(packet_views(pkts@)),
        ensures
            r.is_ok(),
            final(self)@ == (DecoderView {
                queue: old(self)@.queue + packet_views(pkts@),
                ..old(self)@
            }),
            final(self)@.wf(),
    {
        let mut pkts = pkts;
        let ghost waiting = packet_views(self.pkts@);
        let ghost coming = packet_views(pkts@);
        self.pkts.append(&mut pkts);
        proof {
            assert(packet_views(self.pkts@) =~= waiting + coming);
            assert forall|i: int| 0 <= i < self@.queue.len() implies self@.fec.admits(
                #[trigger] self@.queue[i],
            ) by {
                if i < waiting.len() {
                    assert(self@.queue[i] == waiting[i]);
                } else {
                    assert(self@.queue[i] == coming[i - waiting.len()]);
                }
            }
        }
        Ok(())
    }

    /// Counts the rebuilt packets, notes them in the trace and sends them
    /// out.
    fn credit(&mut self, rebuilt: Vec<Packet>, out: &mut Vec<Packet>)
        ensures
            final(self)@ == old(self)@.credited(packet_views(rebuilt@)),
            packet_views(final(out)@) == packet_views(old(out)@) + packet_views(rebuilt@),
    {
        let mut rebuilt = rebuilt;
        let ghost views = packet_views(rebuilt@);
        let ghost sent = packet_views(out@);
        self.nb_recovered = count_up(self.nb_recovered, rebuilt.len());
        match &mut self.trace {
            Some(trace) => {
                let ghost t0 = trace@;
                let mut i: usize = 0;
                while i < rebuilt.len()
                    invariant
                        0 <= i <= rebuilt.len(),
                        views == packet_views(rebuilt@),
                        trace@ == t0 + ids_of(views.take(i as int)),
                    decreases rebuilt.len() - i,
                {
                    trace.push(rebuilt[i].id);
                    proof {
                        assert(views[i as int] == rebuilt@[i as int]@);
                        assert(t0 + ids_of(views.take(i + 1)) =~= (t0 + ids_of(
                            views.take(i as int),
                        )).push(views[i as int].id));
                    }
                    i = i + 1;
                }
                proof {
                    assert(views.take(rebuilt.len() as int) =~= views);
                }
            },
            None => {},
        }
        out.append(&mut rebuilt);
        proof {
            assert(packet_views(out@) =~= sent + views);
        }
    }

    /// Settles one packet, given what the code made of it: the packets it
    /// rebuilt, or its refusal. A refusal ends the pass, unless losses make
    /// it usual. The rest is the node's own: the counts, the trace, the
    /// feedback, and what goes out. An error of the feedback ends the pass
    /// too.
    pub fn settle(
        &mut self,
        pkt: Packet,
        outcome: Result<Vec<Packet>, Error>,
        out: &mut Vec<Packet>,
        reports: &mut Vec<(u64, u64)>,
    ) -> (r: Result<(), Error>)
        requires
            old(self)@.feedback matches Some(fb) ==> fb.wf(),
        ensures
            ({
                let step = old(self)@.settle(pkt@, outcome_view(outcome));
                &&& final(self)@ == step.next
                &&& r == match step.failed {
                    Some(e) => Err::<(), Error>(e),
                    None => Ok(()),
                }
                &&& step.failed.is_none() ==> packet_views(final(out)@) == packet_views(old(out)@)
                    + step.out
                &&& final(reports)@ == old(reports)@ + step.reports
            }),
            final(self)@.feedback matches Some(fb) ==> fb.wf(),
    {
        let mut pkt = pkt;
        let ghost sent = packet_views(out@);
        let ghost told = reports@;
        proof {
            assert(reports@ =~= told + Seq::<(u64, u64)>::empty());
        }
        // 0: unmarked; 1: source symbol; 2: repair symbol.
        let (kind, ssid): (u8, u64) = match &pkt.fec {
            None => (0, 0),
            Some(FecMetadata::Source(FecSourceMetadata::Maelstrom(ssid))) => (1, *ssid),
            Some(FecMetadata::Source(FecSourceMetadata::Tart(metadata))) => (
                1,
                crate::fec::tart::source_symbol_metadata_to_u64(*metadata),
            ),
            Some(FecMetadata::Repair(_)) => (2, 0),
        };
        if kind == 0 {
            out.push(pkt);
            proof {
                assert(packet_views(out@) =~= sent + seq![pkt@]);
            }
            return Ok(());
        }
        if kind == 2 {
            self.nb_rs = self.nb_rs.saturating_add(1);
        } else {
            self.nb_ss = self.nb_ss.saturating_add(1);
        }
        let rebuilt = match outcome {
            Ok(v) => v,
            Err(e) => {
                let usual = match &e {
                    Error::TooOldEquation => true,
                    Error::UnusedRepair => true,
                    _ => false,
                };
                if !usual {
                    return Err(e);
                }
                Vec::new()
            },
        };
        let ghost views = packet_views(rebuilt@);
        proof {
            if outcome is Err {
                assert(views =~= Seq::<PacketView>::empty());
            }
        }
        self.credit(rebuilt, out);
        if kind == 2 {
            return Ok(());
        }
        match &mut self.feedback {
            Some(feedback) => {
                if !feedback.fits(ssid) {
                    return Err(Error::FeedbackIdTooBig);
                }
                match feedback.recv_ss(ssid) {
                    Err(e) => {
                        return Err(e);
                    },
                    Ok(()) => {},
                }
                if feedback.should_send_feedback(ssid) {
                    let total = feedback.nb_since_last(ssid);
                    let nb_lost = total.saturating_sub(feedback.nb_recv());
                    reports.push((nb_lost, total));
                    feedback.reset(ssid);
                    proof {
                        assert(reports@ =~= told + seq![(nb_lost, total)]);
                    }
                }
            },
            None => {},
        }
        let ghost whole = pkt@;
        let ghost mid = packet_views(out@);
        pkt.fec = None;
        out.push(pkt);
        proof {
            assert(pkt@ == whole.stripped());
            assert(mid == sent + views);
            assert(packet_views(out@) =~= mid.push(pkt@));
            assert(packet_views(out@) =~= sent + views.push(whole.stripped()));
        }
        Ok(())
    }

    /// Runs one pass: hands every queued packet to the code and settles
    /// it. A repair symbol that came too late or told nothing new is passed
    /// over; any other error of the code, and an error of the feedback, ends
    /// the pass and is returned. Returns what goes out and the feedback
    /// reports that fell due. The queue is empty afterwards, whatever comes
    /// of the pass.
    pub fn forw(&mut self) -> (r: Result<(Vec<Packet>, Vec<(u64, u64)>), Error>)
        requires
            old(self)@.wf(),
        ensures
            ({
                let pass = decode(
                    DecoderView { queue: Seq::empty(), ..old(self)@ },
                    old(self)@.queue,
                );
                &&& final(self)@ == pass.state
                &&& match pass.failed {
                    Some(e) => r == Err::<(Vec<Packet>, Vec<(u64, u64)>), Error>(e),
                    None => r.is_ok() && packet_views(r.unwrap().0@) == pass.out && r.unwrap().1@
                        == pass.reports,
                }
            }),
            final(self)@.wf(),
    {
        let mut out: Vec<Packet> = Vec::new();
        let mut reports: Vec<(u64, u64)> = Vec::new();
        let mut pending: Vec<Packet> = Vec::new();
        std::mem::swap(&mut self.pkts, &mut pending);
        let ghost queue = packet_views(pending@);
        let ghost start = DecoderView { queue: Seq::empty(), ..old(self)@ };
        proof {
            assert(packet_views(self.pkts@) =~= Seq::<PacketView>::empty());
            assert(packet_views(out@) =~= Seq::<PacketView>::empty());
            assert(queue.take(0) =~= Seq::<PacketView>::empty());
        }
        let n = pending.len();
        let mut i: usize = 0;
        for pkt in it: pending
            invariant
                i == it.index(),
                it.seq().len() == n,
                packet_views(it.seq()) == queue,
                queue == old(self)@.queue,
                start == (DecoderView { queue: Seq::empty(), ..old(self)@ }),
                old(self)@.wf(),
                self@.wf(),
                self@.fec is Maelstrom <==> start.fec is Maelstrom,
                decode(start, queue.take(i as int)).failed.is_none(),
                decode(start, queue.take(i as int)).state == self@,
                decode(start, queue.take(i as int)).out == packet_views(out@),
                decode(start, queue.take(i as int)).reports == reports@,
        {
            let ghost before = self@;
            proof {
                assert(queue.take(i + 1).drop_last() =~= queue.take(i as int));
                assert(pkt@ == queue[i as int]);
                assert(old(self)@.fec.admits(queue[i as int]));
                assert(before.fec.admits(pkt@));
            }
            let kind: u8 = match &pkt.fec {
                None => 0,
                Some(FecMetadata::Source(_)) => 1,
                Some(FecMetadata::Repair(_)) => 2,
            };
            let outcome = if kind == 1 {
                self.fec.recv_ss(&pkt)
            } else if kind == 2 {
                self.fec.recv_rs(&pkt)
            } else {
                let none: Vec<Packet> = Vec::new();
                proof {
                    assert(packet_views(none@) =~= Seq::<PacketView>::empty());
                }
                Ok(none)
            };
            proof {
                assert(self@.fec == before.fec_after(pkt@));
                assert(before.outcome(pkt@) == outcome_view(outcome));
            }
            match self.settle(pkt, outcome, &mut out, &mut reports) {
                Err(e) => {
                    proof {
                        lemma_failed_stays(start, queue, i + 1);
                    }
                    return Err(e);
                },
                Ok(()) => {},
            }
            i = i + 1;
        }
        proof {
            assert(queue.take(n as int) =~= queue);
        }
        Ok((out, reports))
    }

    /// How many packets have been rebuilt.
    pub fn get_nb_recovered(&self) -> (n: u64)
        ensures
            n == self@.nb_recovered,
    {
        self.nb_recovered
    }

    /// Starts a trace, or starts it over.
    pub fn activate_trace(&mut self)
        ensures
            final(self)@ == (DecoderView { trace: Some(Seq::empty()), ..old(self)@ }),
    {
        self.trace = Some(Vec::new());
    }

    /// The numbers of the packets rebuilt, if a trace is kept.
    pub fn get_trace(&self) -> (t: Option<&[u64]>)
        ensures
            match t {
                Some(s) => self@.trace == Some(s@),
                None => self@.trace.is_none(),
            },
    {
        match &self.trace {
            Some(t) => Some(t.as_slice()),
            None => None,
        }
    }
}


/// What the decoder node releases is numbered within what has entered it.
/// Where the code's equations protect only symbols below `bound` and every
/// queued packet speaks of nothing numbered `bound` or above, every packet
/// that goes out is numbered below `bound`, and the equations afterwards
/// still protect only symbols below it.
pub proof fn lemma_decode_below(start: DecoderView, queue: Seq<PacketView>, bound: nat)
    requires
        start.fec.below(bound),
        all_packets_below(queue, bound),
    ensures
        decode(start, queue).state.fec.below(bound),
        all_ids_below(decode(start, queue).out, bound),
    decreases queue.len(),
{
    if queue.len() > 0 {
        let front = queue.drop_last();
        let p = queue.last();
        assert(all_packets_below(front, bound)) by {
            assert forall|i: int| 0 <= i < front.len() implies (#[trigger] front[i]).below(
                bound,
            ) by {
                assert(front[i] == queue[i]);
            }
        }
        lemma_decode_below(start, front, bound);
        let before = decode(start, front);
        let now = decode(start, queue);
        assert(queue[queue.len() - 1] == p);
        assert(p.below(bound));
        if before.failed.is_none() {
            let d = before.state;
            let step = d.absorb(p);
            match d.fec {
                FecDecoderView::Maelstrom(m) => {
                    match p.fec {
                        Some(FecMetadataView::Source(_)) => {
                            crate::fec::maelstrom::laws::lemma_source_below(m, p, bound);
                        },
                        Some(FecMetadataView::Repair(_)) => {
                            crate::fec::maelstrom::laws::lemma_repair_below(m, p, bound);
                        },
                        None => {},
                    }
                },
                FecDecoderView::NoFec => {},
            }
            let rebuilt = yield_of(d.outcome(p));
            assert(all_ids_below(rebuilt, bound));
            assert(all_ids_below(step.out, bound)) by {
                assert forall|k: int| 0 <= k < step.out.len() implies (#[trigger] step.out[k]).id
                    < bound by {
                    if k < rebuilt.len() {
                        assert(step.out[k] == rebuilt[k]);
                    }
                }
            }
            assert forall|k: int| 0 <= k < now.out.len() implies (#[trigger] now.out[k]).id
                < bound by {
                if k < before.out.len() {
                    assert(now.out[k] == before.out[k]);
                } else {
                    assert(now.out[k] == step.out[k - before.out.len()]);
                }
            }
        }
    }
}


/// What the node releases for one packet has not come before. Where the
/// code knows the number of every packet released so far, none of them
/// rebuilt after another of its number, the same holds once the node has
/// settled one more packet of the code.
pub proof fn lemma_absorb_once(d: DecoderView, p: PacketView, sink: Seq<PacketView>)
    requires
        d.tracks(sink),
        rebuilt_once(sink),
        p.in_step(),
    ensures
        d.absorb(p).next.tracks(sink + d.absorb(p).out),
        rebuilt_once(sink + d.absorb(p).out),
{
    let m = d.fec->Maelstrom_0;
    let step = d.absorb(p);
    let all = sink + step.out;
    match p.fec {
        Some(FecMetadataView::Source(_)) => {
            let word = be_word(p.payload);
            crate::fec::maelstrom::laws::lemma_learn_once(m, p.id, word, p.id, sink);
            let rebuilt = m.rebuilt(p.id, word, p.id);
            let after = m.learn(p.id, word, p.id);
            assert(yield_of(d.outcome(p)) == rebuilt);
            assert(step.next.fec == FecDecoderView::Maelstrom(after));
            assert(step.out == rebuilt.push(p.stripped()) || step.out
                == Seq::<PacketView>::empty());
            assert forall|j: int| 0 <= j < all.len() implies after.known.dom().contains(
                (#[trigger] all[j]).id,
            ) by {
                if j < sink.len() {
                    assert(all[j] == sink[j]);
                } else if j - sink.len() < rebuilt.len() {
                    assert(all[j] == rebuilt[j - sink.len()]);
                }
            }
            assert forall|j: int, k: int|
                0 <= j < k < all.len() && (#[trigger] all[k]).recovered_from.is_some() implies (
            #[trigger] all[j]).id != all[k].id by {
                let both = sink + rebuilt;
                if k - sink.len() < rebuilt.len() {
                    assert(all[k] == both[k]);
                    assert(all[j] == both[j]);
                }
            }
        },
        Some(FecMetadataView::Repair(crate::fec::FecRepairView::Maelstrom(list))) => {
            let eq = crate::fec::maelstrom::EquationView::of(list, p.payload);
            let lacking = eq.lacking(m.known.dom());
            if list.len() > 0 && !m.too_old(list) && lacking.len() == 1 {
                let ssid = lacking[0];
                let word = eq.solution(m.known);
                crate::fec::maelstrom::lemma_missing_members(eq.need, m.known.dom());
                assert(lacking.contains(ssid));
                crate::fec::maelstrom::laws::lemma_learn_once(m, ssid, word, ssid, sink);
                let first = crate::fec::maelstrom::recovered_view(ssid, word, p.id);
                let rest = m.rebuilt(ssid, word, ssid);
                let after = m.learn(ssid, word, ssid);
                assert(step.out == seq![first] + rest);
                assert(step.next.fec == FecDecoderView::Maelstrom(after));
                assert forall|j: int| 0 <= j < all.len() implies after.known.dom().contains(
                    (#[trigger] all[j]).id,
                ) by {
                    if j < sink.len() {
                        assert(all[j] == sink[j]);
                    } else if j == sink.len() {
                        assert(all[j] == first);
                    } else {
                        assert(all[j] == rest[j - sink.len() - 1]);
                    }
                }
                assert forall|j: int, k: int|
                    0 <= j < k < all.len() && (#[trigger] all[k]).recovered_from.is_some() implies (
                #[trigger] all[j]).id != all[k].id by {
                    let both = sink + rest;
                    if k < sink.len() {
                        assert(all[j] == sink[j] && all[k] == sink[k]);
                    } else if k == sink.len() {
                        assert(all[k] == first);
                        assert(all[j] == sink[j]);
                    } else {
                        assert(all[k] == rest[k - sink.len() - 1]);
                        assert(all[k] == both[k - 1]);
                        if j < sink.len() {
                            assert(all[j] == both[j]);
                        } else if j == sink.len() {
                            assert(all[j] == first);
                        } else {
                            assert(all[j] == both[j - 1]);
                        }
                    }
                }
            } else {
                assert(step.out =~= Seq::<PacketView>::empty());
                assert(all =~= sink);
            }
        },
        _ => {},
    }
}

/// What the node releases in a pass has not come before. Where the code
/// knows the number of every packet released so far, none of them rebuilt
/// after another of its number, and every queued packet is as the encoder
/// of the code sends it, the same holds of what has been released after the
/// pass.
pub proof fn lemma_decode_once(start: DecoderView, queue: Seq<PacketView>, sink: Seq<PacketView>)
    requires
        start.tracks(sink),
        rebuilt_once(sink),
        all_in_step(queue),
    ensures
        decode(start, queue).state.tracks(sink + decode(start, queue).out),
        rebuilt_once(sink + decode(start, queue).out),
    decreases queue.len(),
{
    if queue.len() == 0 {
        assert(sink + decode(start, queue).out =~= sink);
    } else {
        let front = queue.drop_last();
        let p = queue.last();
        assert(all_in_step(front)) by {
            assert forall|i: int| 0 <= i < front.len() implies (#[trigger] front[i]).in_step() by {
                assert(front[i] == queue[i]);
            }
        }
        lemma_decode_once(start, front, sink);
        let before = decode(start, front);
        assert(queue[queue.len() - 1] == p);
        if before.failed.is_none() {
            lemma_absorb_once(before.state, p, sink + before.out);
            let step = before.state.absorb(p);
            assert((sink + before.out) + step.out =~= sink + (before.out + step.out));
        }
    }
}


/// A pass leaves the queue that it started from as it was: what it takes
/// in, it settles.
pub proof fn lemma_decode_queue(start: DecoderView, queue: Seq<PacketView>)
    ensures
        decode(start, queue).state.queue == start.queue,
    decreases queue.len(),
{
    if queue.len() > 0 {
        lemma_decode_queue(start, queue.drop_last());
    }
}

} // verus!
