//! The sliding-window linear code and its repair schedulers.
//!
//! The code itself is the work of a kernel that is not part of this
//! library. What is here is everything around the kernel: when a repair
//! symbol is due, which symbols leave the window, what a packet carries, and
//! what becomes of the kernel's answers. Whoever holds the kernel asks it
//! what these functions say, and hands them what it answered.

use vstd::prelude::*;

use crate::fec::floor_sub;
use crate::fec::FecMetadata;
use crate::fec::FecMetadataView;
use crate::fec::FecRepairMetadata;
use crate::fec::FecRepairView;
use crate::fec::FecSourceMetadata;
use crate::fec::FecSourceView;
use crate::fec::SourceSymbolMetadata;
use crate::packet_views;
use crate::word::{be_seq, be_word};
use crate::Error;
use crate::Packet;
use crate::PacketView;

verus! {

/// How many times the window the kernel is told to hold.
pub const MAX_WINDOW_FACTOR: usize = 500;

/// The size of the symbols that the kernel is set up for.
pub const SYMBOL_SIZE: usize = 8;

/// The name of the source symbol numbered `n`.
pub fn source_symbol_metadata_from_u64(n: u64) -> (md: SourceSymbolMetadata)
    ensures
        md@ == be_seq(n),
{
    let md: [u8; 8] = [
        (n >> 56) as u8,
        (n >> 48) as u8,
        (n >> 40) as u8,
        (n >> 32) as u8,
        (n >> 24) as u8,
        (n >> 16) as u8,
        (n >> 8) as u8,
        n as u8,
    ];
    assert(md@ =~= be_seq(n));
    md
}

/// The number of the source symbol named `md`.
pub fn source_symbol_metadata_to_u64(md: SourceSymbolMetadata) -> (n: u64)
    ensures
        n == be_word(md@),
{
    (md[0] as u64) << 56 | (md[1] as u64) << 48 | (md[2] as u64) << 40 | (md[3] as u64) << 32 | (
    md[4] as u64) << 24 | (md[5] as u64) << 16 | (md[6] as u64) << 8 | (md[7] as u64)
}

/// A copy of `bytes`.
pub fn copy_bytes(bytes: &Vec<u8>) -> (out: Vec<u8>)
    ensures
        out@ == bytes@,
{
    let mut out: Vec<u8> = Vec::new();
    let mut i: usize = 0;
    while i < bytes.len()
        invariant
            0 <= i <= bytes.len(),
            out@ == bytes@.take(i as int),
        decreases bytes.len() - i,
    {
        out.push(bytes[i]);
        proof {
            assert(bytes@.take(i + 1) =~= bytes@.take(i as int).push(bytes@[i as int]));
        }
        i = i + 1;
    }
    proof {
        assert(bytes@.take(bytes.len() as int) =~= bytes@);
    }
    out
}

/// Decides when the encoder emits a repair symbol. A scheduler may weigh
/// whatever it has been told, so nothing is promised of its answers here;
/// each scheduler states its own rule on its implementation.
pub trait TartFecScheduler {
    /// Whether a repair symbol is due when `current` is the next source
    /// symbol.
    fn should_generate_rs(&self, current: u64) -> bool;

    /// Takes note that a repair symbol left at `current`.
    fn on_sent_rs(&mut self, current: u64);

    /// The name of the last symbol that may leave the window when
    /// `current` is the next source symbol.
    fn should_reset_up_to(&mut self, current: u64) -> SourceSymbolMetadata;

    /// Takes the decoder's report: `nb_lost` symbols missing out of
    /// `nb_elems`.
    fn recv_feedback(&mut self, nb_lost: u64, nb_elems: u64);

    /// The name under which the scheduler goes in file names.
    fn label(&self) -> String;
}

/// Fires once every `step` source symbols, whatever the decoder reports.
#[derive(Debug)]
pub struct WindowStepScheduler {
    /// Maximum number of symbols in the window.
    max_wnd: u64,
    /// Source symbols between two repair symbols.
    step: u64,
    /// The source symbol at which the last repair symbol left.
    last_sent: u64,
}

impl WindowStepScheduler {
    #[verifier::type_invariant]
    spec fn positive_step(self) -> bool {
        self.step > 0
    }

    /// The most symbols in the window.
    pub closed spec fn max_wnd(&self) -> u64 {
        self.max_wnd
    }

    /// The source symbols between two repair symbols.
    pub closed spec fn step(&self) -> u64 {
        self.step
    }

    /// The source symbol at which the last repair symbol left.
    pub closed spec fn last_sent(&self) -> u64 {
        self.last_sent
    }

    /// Whether a repair symbol is due when `current` is the next source
    /// symbol: the last one left at least a step ago.
    pub open spec fn fires(&self, current: u64) -> bool {
        floor_sub(current, self.last_sent()) >= self.step()
    }

    /// The scheduler's name in file names.
    pub open spec fn name(&self) -> Seq<char> {
        "window_"@ + crate::word::decimal(self.step() as nat)
    }

    /// A scheduler that has sent nothing yet. With a step of zero a repair
    /// symbol would be due again as soon as one has left, without end.
    pub fn new(max_wnd: u64, step: u64) -> (s: Self)
        requires
            step > 0,
        ensures
            s.max_wnd() == max_wnd,
            s.step() == step,
            s.last_sent() == 0,
    {
        Self { max_wnd, step, last_sent: 0 }
    }

}

impl TartFecScheduler for WindowStepScheduler {
    fn should_generate_rs(&self, current: u64) -> (b: bool)
        ensures
            b == self.fires(current),
    {
        current.saturating_sub(self.last_sent) >= self.step
    }

    /// None is due any more at the symbol at which one has just left.
    fn on_sent_rs(&mut self, current: u64)
        ensures
            final(self).last_sent() == current,
            final(self).step() == old(self).step(),
            final(self).max_wnd() == old(self).max_wnd(),
            !final(self).fires(current),
    {
        proof {
            use_type_invariant(&*self);
        }
        self.last_sent = current;
    }

    fn should_reset_up_to(&mut self, current: u64) -> (md: SourceSymbolMetadata)
        ensures
            md@ == be_seq(floor_sub(current, old(self).max_wnd())),
            final(self).last_sent() == old(self).last_sent(),
            final(self).step() == old(self).step(),
            final(self).max_wnd() == old(self).max_wnd(),
    {
        source_symbol_metadata_from_u64(current.saturating_sub(self.max_wnd))
    }

    fn recv_feedback(&mut self, _nb_lost: u64, _nb_elems: u64)
        ensures
            final(self).last_sent() == old(self).last_sent(),
            final(self).step() == old(self).step(),
            final(self).max_wnd() == old(self).max_wnd(),
    {
    }

    fn label(&self) -> (name: String)
        ensures
            name@ == self.name(),
    {
        let mut name = "window_".to_owned();
        crate::word::push_decimal(&mut name, self.step);
        name
    }
}

/// The source symbols, out of `ids`, at which a fixed-step scheduler emits
/// a repair symbol: it is asked at each in turn, having sent its last
/// repair symbol at `last`, and is told of every repair symbol that leaves.
pub open spec fn emissions(step: u64, last: u64, ids: Seq<u64>) -> Seq<u64>
    decreases ids.len(),
{
    if ids.len() == 0 {
        Seq::empty()
    } else if floor_sub(ids[0], last) >= step {
        seq![ids[0]] + emissions(step, ids[0], ids.drop_first())
    } else {
        emissions(step, last, ids.drop_first())
    }
}

/// What a fixed-step scheduler emits follows from its inputs alone. Two
/// schedulers with the same step that sent their last repair symbol at the
/// same source symbol decide alike at every source symbol, and over the
/// same run of source symbols they emit repair symbols at the same ones.
pub proof fn lemma_window_step_deterministic(
    a: WindowStepScheduler,
    b: WindowStepScheduler,
    ids: Seq<u64>,
)
    requires
        a.step() == b.step(),
        a.last_sent() == b.last_sent(),
    ensures
        forall|current: u64| a.fires(current) == b.fires(current),
        emissions(a.step(), a.last_sent(), ids) == emissions(b.step(), b.last_sent(), ids),
{
}

/// A fixed-step scheduler leaves at least a step between two repair
/// symbols: each leaves at least a step after the one before it, and the
/// first at least a step after the last that had left.
pub proof fn lemma_emissions_spaced(step: u64, last: u64, ids: Seq<u64>, k: int)
    requires
        step > 0,
        0 <= k < emissions(step, last, ids).len(),
    ensures
        emissions(step, last, ids)[k] >= (if k == 0 {
            last
        } else {
            emissions(step, last, ids)[k - 1]
        }) + step,
    decreases ids.len(),
{
    let rest = ids.drop_first();
    if floor_sub(ids[0], last) >= step {
        let tail = emissions(step, ids[0], rest);
        assert(emissions(step, last, ids) == seq![ids[0]] + tail);
        if k > 0 {
            lemma_emissions_spaced(step, ids[0], rest, k - 1);
        }
    } else {
        lemma_emissions_spaced(step, last, rest, k);
    }
}

/// The repair packet that the encoder makes of a serialised repair symbol:
/// numbered with the next source symbol, its bytes in the metadata and no
/// payload.
pub open spec fn tart_repair_view(current_id: u64, repair: Seq<u8>) -> PacketView {
    PacketView {
        id: current_id,
        payload: Seq::empty(),
        fec: Some(FecMetadataView::Repair(FecRepairView::Tart(repair))),
        recovered_from: None,
    }
}

/// The scheduler of an encoder: the fixed-step one, whose rule the encoder
/// knows, or any other, whose answers it takes as they come.
pub enum TartScheduler {
    WindowStep(WindowStepScheduler),
    Other(Box<dyn TartFecScheduler>),
}

impl TartScheduler {
    /// Whether a repair symbol is due when `current` is the next source
    /// symbol.
    pub fn should_generate_rs(&self, current: u64) -> (b: bool)
        ensures
            self.window_step() matches Some(w) ==> b == w.fires(current),
    {
        match self {
            TartScheduler::WindowStep(w) => w.should_generate_rs(current),
            TartScheduler::Other(s) => s.should_generate_rs(current),
        }
    }

    /// Takes note that a repair symbol left at `current`.
    pub fn on_sent_rs(&mut self, current: u64)
        ensures
            sent_at(old(self).window_step(), final(self).window_step(), current),
    {
        match self {
            TartScheduler::WindowStep(w) => w.on_sent_rs(current),
            TartScheduler::Other(s) => s.on_sent_rs(current),
        }
    }

    /// Takes the decoder's report.
    pub fn recv_feedback(&mut self, nb_lost: u64, nb_elems: u64)
        ensures
            same_schedule(old(self).window_step(), final(self).window_step()),
    {
        match self {
            TartScheduler::WindowStep(w) => w.recv_feedback(nb_lost, nb_elems),
            TartScheduler::Other(s) => s.recv_feedback(nb_lost, nb_elems),
        }
    }

    /// The name under which the scheduler goes in file names.
    pub fn label(&self) -> (name: String)
        ensures
            self.window_step() matches Some(w) ==> name@ == w.name(),
    {
        match self {
            TartScheduler::WindowStep(w) => w.label(),
            TartScheduler::Other(s) => s.label(),
        }
    }
}

impl TartScheduler {
    /// The fixed-step scheduler, if that is what this is.
    pub open spec fn window_step(&self) -> Option<WindowStepScheduler> {
        match self {
            TartScheduler::WindowStep(w) => Some(*w),
            TartScheduler::Other(_) => None,
        }
    }
}

/// Whether the fixed-step scheduler `then` is `before` after a repair symbol
/// has left at `current`.
pub open spec fn sent_at(
    before: Option<WindowStepScheduler>,
    then: Option<WindowStepScheduler>,
    current: u64,
) -> bool {
    match (before, then) {
        (Some(a), Some(b)) => b.last_sent() == current && b.step() == a.step() && b.max_wnd()
            == a.max_wnd(),
        (None, None) => true,
        _ => false,
    }
}

/// Whether the fixed-step scheduler is the same in all that its rule
/// depends on.
pub open spec fn same_schedule(
    before: Option<WindowStepScheduler>,
    then: Option<WindowStepScheduler>,
) -> bool {
    match (before, then) {
        (Some(a), Some(b)) => b.last_sent() == a.last_sent() && b.step() == a.step()
            && b.max_wnd() == a.max_wnd(),
        (None, None) => true,
        _ => false,
    }
}

/// The sending side of the sliding-window code, but for the kernel.
pub struct TartEncoder {
    scheduler: TartScheduler,
    max_wnd: usize,
}

impl TartEncoder {
    /// The most source symbols that are protected at a time.
    pub closed spec fn window(&self) -> usize {
        self.max_wnd
    }

    /// The fixed-step scheduler, if the encoder has that one.
    pub closed spec fn window_step(&self) -> Option<WindowStepScheduler> {
        self.scheduler.window_step()
    }

    /// An encoder for a window of `max_wnd` symbols, with a scheduler of
    /// any kind. The kernel's window is a multiple of the encoder's, which
    /// must be a number that the machine can hold.
    pub fn new(scheduler: Box<dyn TartFecScheduler>, max_wnd: u64) -> (e: Self)
        requires
            max_wnd * MAX_WINDOW_FACTOR <= usize::MAX,
        ensures
            e.window() == max_wnd,
            e.window_step().is_none(),
    {
        Self { scheduler: TartScheduler::Other(scheduler), max_wnd: max_wnd as usize }
    }

    /// An encoder for a window of `max_wnd` symbols, with the fixed-step
    /// scheduler, whose rule the encoder's contracts then speak of.
    pub fn with_window_step(scheduler: WindowStepScheduler, max_wnd: u64) -> (e: Self)
        requires
            max_wnd * MAX_WINDOW_FACTOR <= usize::MAX,
        ensures
            e.window() == max_wnd,
            e.window_step() == Some(scheduler),
    {
        Self { scheduler: TartScheduler::WindowStep(scheduler), max_wnd: max_wnd as usize }
    }

    /// The window that the kernel is set up with.
    pub fn kernel_window(&self) -> (w: usize)
        requires
            self.window() * MAX_WINDOW_FACTOR <= usize::MAX,
        ensures
            w == self.window() * MAX_WINDOW_FACTOR,
    {
        self.max_wnd * MAX_WINDOW_FACTOR
    }

    /// Marks the packet as the source symbol that the kernel named
    /// `metadata` when it took the payload in. A packet that already
    /// carries metadata is refused and stays as it was.
    pub fn protect_symbol(&mut self, pkt: &mut Packet, metadata: SourceSymbolMetadata) -> (r:
        Result<(), Error>)
        ensures
            final(self).window() == old(self).window(),
            final(self).window_step() == old(self).window_step(),
            old(pkt)@.fec.is_none() ==> r.is_ok() && final(pkt)@ == (PacketView {
                fec: Some(FecMetadataView::Source(FecSourceView::Tart(metadata@))),
                ..old(pkt)@
            }),
            old(pkt)@.fec.is_some() ==> {
                &&& r == Err::<(), Error>(Error::FecDoubleMetadata)
                &&& final(pkt)@ == old(pkt)@
            },
    {
        pkt.add_fec_metadata(FecMetadata::Source(FecSourceMetadata::Tart(metadata)))
    }

    /// The number of the next source symbol, from the name that the kernel
    /// gives it.
    pub fn next_id(&self, next_metadata: SourceSymbolMetadata) -> (id: u64)
        ensures
            id == be_word(next_metadata@),
    {
        source_symbol_metadata_to_u64(next_metadata)
    }

    /// Whether a repair symbol is due when `next_id` is the next source
    /// symbol. The fixed-step scheduler goes by its rule; any other
    /// scheduler answers as it sees fit.
    pub fn should_send_rs(&self, next_id: u64) -> (b: bool)
        ensures
            self.window_step() matches Some(w) ==> b == w.fires(next_id),
    {
        self.scheduler.should_generate_rs(next_id)
    }

    /// Tells the scheduler that a repair symbol has left.
    pub fn on_sent_rs(&mut self, next_id: u64)
        ensures
            final(self).window() == old(self).window(),
            sent_at(old(self).window_step(), final(self).window_step(), next_id),
    {
        self.scheduler.on_sent_rs(next_id)
    }

    /// Whether the kernel protects so many symbols that old ones are to
    /// leave.
    pub fn should_reset(&self, n_protected: usize) -> (b: bool)
        ensures
            b == (n_protected >= self.window()),
    {
        n_protected >= self.max_wnd
    }

    /// The name of the last source symbol that is to leave the kernel's
    /// window when `next_id` is the next source symbol: the one a window
    /// behind, if there is one after the first.
    pub fn reset(&self, next_id: u64) -> (up_to: Option<SourceSymbolMetadata>)
        ensures
            match up_to {
                Some(md) => next_id > self.window() && md@ == be_seq(
                    floor_sub(next_id, self.window() as u64),
                ),
                None => next_id <= self.window(),
            },
    {
        let id_to_remove = next_id.saturating_sub(self.max_wnd as u64);
        if id_to_remove > 0 {
            Some(source_symbol_metadata_from_u64(id_to_remove))
        } else {
            None
        }
    }

    /// One turn of the repair loop: what the kernel answered when it was
    /// asked for a repair symbol, at the source symbol `current_id`. A
    /// repair symbol becomes a repair packet and the scheduler is told that
    /// it has left, `next_id` being the next source symbol by then. A
    /// failure of the kernel becomes an error of the encoder, and the
    /// scheduler is told nothing.
    pub fn generate_rs(
        &mut self,
        current_id: u64,
        repair: Result<Vec<u8>, String>,
        next_id: u64,
    ) -> (r: Result<Packet, Error>)
        ensures
            final(self).window() == old(self).window(),
            match repair {
                Ok(bytes) => r.is_ok() && r.unwrap()@ == tart_repair_view(current_id, bytes@)
                    && sent_at(old(self).window_step(), final(self).window_step(), next_id),
                Err(text) => r == Err::<Packet, Error>(Error::FecEncoder(text)) && same_schedule(
                    old(self).window_step(),
                    final(self).window_step(),
                ),
            },
    {
        match repair {
            Ok(bytes) => {
                let rs = Packet {
                    id: current_id,
                    fec: Some(FecMetadata::Repair(FecRepairMetadata::Tart(bytes))),
                    recovered: None,
                    data: Vec::new(),
                };
                self.on_sent_rs(next_id);
                Ok(rs)
            },
            Err(text) => Err(Error::FecEncoder(text)),
        }
    }

    /// The name under which the encoder goes in file names: the word
    /// `tart` and the scheduler's name.
    pub fn label(&self) -> (name: String)
        ensures
            "tart_"@.is_prefix_of(name@),
            self.window_step() matches Some(w) ==> name@ == "tart_"@ + w.name(),
    {
        let mut name = "tart_".to_owned();
        let scheduler = self.scheduler.label();
        vstd::string::StringExecFns::append(&mut name, scheduler.as_str());
        name
    }

    /// Hands the decoder's report to the scheduler. The fixed-step
    /// scheduler makes nothing of it.
    pub fn recv_feedback(&mut self, nb_lost: u64, nb_elems: u64)
        ensures
            final(self).window() == old(self).window(),
            same_schedule(old(self).window_step(), final(self).window_step()),
    {
        self.scheduler.recv_feedback(nb_lost, nb_elems)
    }
}

/// What the kernel made of a symbol.
pub enum TartOutcome {
    /// The payloads of the source symbols that it decoded.
    Decoded(Vec<Vec<u8>>),
    /// The repair symbol added nothing to what the kernel had.
    UnusedRepair,
    /// The kernel failed, in its own words.
    Failed(String),
}

/// The packets that stand for the decoded payloads: each is numbered by
/// the word that its payload spells, and dated from the packet numbered
/// `trigger`.
pub open spec fn decoded_views(symbols: Seq<Vec<u8>>, trigger: u64) -> Seq<PacketView> {
    Seq::new(
        symbols.len(),
        |i: int|
            PacketView {
                recovered_from: Some(floor_sub(trigger, be_word(symbols[i]@))),
                ..PacketView::fresh(be_word(symbols[i]@))
            },
    )
}

/// The receiving side of the sliding-window code, but for the kernel.
pub struct TartDecoder {
    max_window: u64,
}

impl TartDecoder {
    /// The most source symbols that are protected at a time.
    pub closed spec fn window(&self) -> u64 {
        self.max_window
    }

    /// A decoder for a window of `max_wnd` symbols. The kernel's window is a
    /// multiple of it, which must be a number that the machine can hold.
    pub fn new(max_wnd: u64) -> (d: Self)
        requires
            max_wnd * MAX_WINDOW_FACTOR <= usize::MAX,
        ensures
            d.window() == max_wnd,
    {
        Self { max_window: max_wnd }
    }

    /// The window that the kernel is set up with.
    pub fn kernel_window(&self) -> (w: usize)
        requires
            self.window() * MAX_WINDOW_FACTOR <= usize::MAX,
        ensures
            w == self.window() * MAX_WINDOW_FACTOR,
    {
        (self.max_window as usize) * MAX_WINDOW_FACTOR
    }

    /// What to hand to the kernel for a source symbol: its name and its
    /// payload. A packet that does not carry this code's source metadata is
    /// refused.
    pub fn recv_ss(&self, pkt: &Packet) -> (r: Result<(SourceSymbolMetadata, Vec<u8>), Error>)
        ensures
            match pkt@.fec {
                Some(FecMetadataView::Source(FecSourceView::Tart(md))) => r.is_ok()
                    && r.unwrap().0@ == md && r.unwrap().1@ == pkt@.payload,
                _ => r == Err::<(SourceSymbolMetadata, Vec<u8>), Error>(Error::FecWrongMetadata),
            },
    {
        match &pkt.fec {
            Some(FecMetadata::Source(FecSourceMetadata::Tart(metadata))) => Ok(
                (*metadata, copy_bytes(&pkt.data)),
            ),
            _ => Err(Error::FecWrongMetadata),
        }
    }

    /// What to hand to the kernel for a repair symbol: its bytes, as the
    /// encoder's kernel serialised them. A packet that does not carry this
    /// code's repair metadata is refused.
    pub fn recv_rs(&self, pkt: &Packet) -> (r: Result<Vec<u8>, Error>)
        ensures
            match pkt@.fec {
                Some(FecMetadataView::Repair(FecRepairView::Tart(bytes))) => r.is_ok()
                    && r.unwrap()@ == bytes,
                _ => r == Err::<Vec<u8>, Error>(Error::FecWrongMetadata),
            },
    {
        match &pkt.fec {
            Some(FecMetadata::Repair(FecRepairMetadata::Tart(repair_symbol))) => Ok(
                copy_bytes(repair_symbol),
            ),
            _ => Err(Error::FecWrongMetadata),
        }
    }

    /// What becomes of the kernel's answer to the packet numbered
    /// `trigger`. Decoded symbols become rebuilt packets; they are one word
    /// long, as the kernel was set up. An unused repair symbol and a
    /// failure of the kernel become the errors of those names.
    pub fn recovered(&self, outcome: TartOutcome, trigger: u64) -> (r: Result<Vec<Packet>, Error>)
        requires
            outcome matches TartOutcome::Decoded(symbols) ==> forall|i: int|
                0 <= i < symbols@.len() ==> (#[trigger] symbols@[i])@.len() == SYMBOL_SIZE,
        ensures
            match outcome {
                TartOutcome::Decoded(symbols) => r.is_ok() && packet_views(r.unwrap()@)
                    == decoded_views(symbols@, trigger),
                TartOutcome::UnusedRepair => r == Err::<Vec<Packet>, Error>(Error::UnusedRepair),
                TartOutcome::Failed(text) => r == Err::<Vec<Packet>, Error>(
                    Error::FecDecoder(text),
                ),
            },
    {
        match outcome {
            TartOutcome::Decoded(symbols) => {
                let mut out: Vec<Packet> = Vec::new();
                let mut i: usize = 0;
                while i < symbols.len()
                    invariant
                        0 <= i <= symbols.len(),
                        forall|k: int|
                            0 <= k < symbols@.len() ==> (#[trigger] symbols@[k])@.len()
                                == SYMBOL_SIZE,
                        packet_views(out@) == decoded_views(symbols@, trigger).take(i as int),
                    decreases symbols.len() - i,
                {
                    let ghost done = packet_views(out@);
                    let id = crate::word::word_from_be(&symbols[i]);
                    let pkt = Packet::new_recovered(id, trigger);
                    out.push(pkt);
                    proof {
                        assert(packet_views(out@) =~= done.push(pkt@));
                        assert(decoded_views(symbols@, trigger).take(i + 1) =~= decoded_views(
                            symbols@,
                            trigger,
                        ).take(i as int).push(decoded_views(symbols@, trigger)[i as int]));
                    }
                    i = i + 1;
                }
                proof {
                    assert(decoded_views(symbols@, trigger).take(symbols.len() as int)
                        =~= decoded_views(symbols@, trigger));
                }
                Ok(out)
            },
            TartOutcome::UnusedRepair => Err(Error::UnusedRepair),
            TartOutcome::Failed(text) => Err(Error::FecDecoder(text)),
        }
    }
}

} // verus!
