//! FEC metadata and the two codecs.

use vstd::prelude::*;

pub mod maelstrom;
pub mod tart;

use crate::fec::maelstrom::outcome_is;
use crate::fec::maelstrom::MaelstromDecoder;
use crate::fec::maelstrom::MaelstromDecoderView;
use crate::fec::maelstrom::MaelstromEncoder;
use crate::fec::maelstrom::MaelstromEncoderView;
use crate::fec::maelstrom::MaelstromRepairInfo;
use crate::fec::maelstrom::MaelstromSSID;
use crate::fec::maelstrom::Symbol;
use crate::packet_views;
use crate::word::be_word;
use crate::Error;
use crate::Packet;
use crate::PacketView;

verus! {

/// `a - b`, or zero where `b` is the larger. This is how far the symbol
/// `b` lies behind the symbol `a`, if it lies behind it at all.
pub open spec fn floor_sub(a: u64, b: u64) -> u64 {
    if a >= b {
        (a - b) as u64
    } else {
        0
    }
}

/// The linear code's name for a source symbol: eight bytes, which spell the
/// symbol's number most significant byte first.
pub type SourceSymbolMetadata = [u8; 8];

/// FEC scheme-specific metadata.
#[derive(Clone, Debug)]
pub enum FecMetadata {
    Source(FecSourceMetadata),
    Repair(FecRepairMetadata),
}

/// What a source symbol carries.
#[derive(Clone, Debug)]
pub enum FecSourceMetadata {
    /// The kernel's name for the symbol.
    Tart(SourceSymbolMetadata),
    /// The number that the encoder gave the symbol.
    Maelstrom(MaelstromSSID),
}

/// What a repair symbol carries.
#[derive(Clone, Debug)]
pub enum FecRepairMetadata {
    /// The repair symbol as the kernel serialised it.
    Tart(Vec<u8>),
    /// The source symbols that were summed.
    Maelstrom(MaelstromRepairInfo),
}

/// What a source symbol carries, as contracts see it.
pub enum FecSourceView {
    Tart(Seq<u8>),
    Maelstrom(u64),
}

impl FecSourceView {
    /// The number of the source symbol: the one that the encoder gave it,
    /// or the one that its name spells.
    pub open spec fn ssid(self) -> u64 {
        match self {
            FecSourceView::Tart(name) => be_word(name),
            FecSourceView::Maelstrom(ssid) => ssid,
        }
    }
}

/// What a repair symbol carries, as contracts see it.
pub enum FecRepairView {
    Tart(Seq<u8>),
    Maelstrom(Seq<u64>),
}

/// FEC metadata as contracts see it.
pub enum FecMetadataView {
    Source(FecSourceView),
    Repair(FecRepairView),
}

impl View for FecSourceMetadata {
    type V = FecSourceView;

    open spec fn view(&self) -> FecSourceView {
        match *self {
            FecSourceMetadata::Tart(md) => FecSourceView::Tart(md@),
            FecSourceMetadata::Maelstrom(ssid) => FecSourceView::Maelstrom(ssid),
        }
    }
}

impl View for FecRepairMetadata {
    type V = FecRepairView;

    open spec fn view(&self) -> FecRepairView {
        match *self {
            FecRepairMetadata::Tart(bytes) => FecRepairView::Tart(bytes@),
            FecRepairMetadata::Maelstrom(info) => FecRepairView::Maelstrom(info@),
        }
    }
}

impl View for FecMetadata {
    type V = FecMetadataView;

    open spec fn view(&self) -> FecMetadataView {
        match *self {
            FecMetadata::Source(s) => FecMetadataView::Source(s@),
            FecMetadata::Repair(r) => FecMetadataView::Repair(r@),
        }
    }
}

impl FecMetadata {
    /// What the metadata says of a source symbol, if it marks one.
    pub fn source(&self) -> (s: Option<&FecSourceMetadata>)
        ensures
            s == match *self {
                FecMetadata::Source(m) => Some(&m),
                FecMetadata::Repair(_) => None,
            },
    {
        match self {
            FecMetadata::Source(s) => Some(s),
            FecMetadata::Repair(_) => None,
        }
    }

    /// What the metadata says of a repair symbol, if it marks one.
    pub fn repair(&self) -> (r: Option<&FecRepairMetadata>)
        ensures
            r == match *self {
                FecMetadata::Repair(m) => Some(&m),
                FecMetadata::Source(_) => None,
            },
    {
        match self {
            FecMetadata::Repair(r) => Some(r),
            FecMetadata::Source(_) => None,
        }
    }
}

impl Packet {
    /// Attaches metadata to a packet that has none. Metadata is set at most
    /// once: a second attempt is refused and leaves the packet as it was.
    pub fn add_fec_metadata(&mut self, metadata: FecMetadata) -> (r: Result<(), Error>)
        ensures
            old(self)@.fec.is_none() ==> r.is_ok() && final(self)@ == (PacketView {
                fec: Some(metadata@),
                ..old(self)@
            }),
            old(self)@.fec.is_some() ==> r == Err::<(), Error>(Error::FecDoubleMetadata)
                && final(self)@ == old(self)@,
    {
        if self.fec.is_some() {
            return Err(Error::FecDoubleMetadata);
        }
        self.fec = Some(metadata);
        Ok(())
    }
}


/// The code that the encoder node applies. The sliding-window code is not
/// among them: it works through a kernel that the node cannot reach, and is
/// driven step by step (see `tart`).
pub enum FecEncoder {
    Maelstrom(MaelstromEncoder),
    /// No code: packets pass as they are.
    NoFec,
}

/// The encoder node's code as contracts see it.
pub enum FecEncoderView {
    Maelstrom(MaelstromEncoderView),
    NoFec,
}

impl FecEncoderView {
    /// The code is in order.
    pub open spec fn wf(self) -> bool {
        match self {
            FecEncoderView::Maelstrom(m) => m.wf(),
            FecEncoderView::NoFec => true,
        }
    }

    /// The number that the code gives the next packet; zero for no code.
    pub open spec fn next_number(self) -> nat {
        match self {
            FecEncoderView::Maelstrom(m) => m.next_ssid as nat,
            FecEncoderView::NoFec => 0,
        }
    }

    /// How many more packets the code can number.
    pub open spec fn room(self) -> nat {
        match self {
            FecEncoderView::Maelstrom(m) => (u64::MAX - m.next_ssid) as nat,
            FecEncoderView::NoFec => u64::MAX as nat,
        }
    }

    /// Whether the code can take the packet in: it has a number left for
    /// it, and can read its payload.
    pub open spec fn admits(self, p: PacketView) -> bool {
        match self {
            FecEncoderView::Maelstrom(m) => m.next_ssid < u64::MAX && p.summable(),
            FecEncoderView::NoFec => true,
        }
    }

    /// Whether the code turns the packet down: it protects no packet that
    /// already carries metadata.
    pub open spec fn refuses(self, p: PacketView) -> bool {
        self is Maelstrom && p.fec.is_some()
    }

    /// The packet as the code sends it on.
    pub open spec fn protected(self, p: PacketView) -> PacketView {
        match self {
            FecEncoderView::Maelstrom(m) => if p.fec.is_some() {
                p
            } else {
                PacketView {
                    fec: Some(FecMetadataView::Source(FecSourceView::Maelstrom(m.next_ssid))),
                    ..p
                }
            },
            FecEncoderView::NoFec => p,
        }
    }

    /// The code after it has protected the packet.
    pub open spec fn protect(self, p: PacketView) -> Self {
        match self {
            FecEncoderView::Maelstrom(m) => if p.fec.is_some() {
                self
            } else {
                FecEncoderView::Maelstrom(
                    m.protect(Symbol { id: p.id, word: be_word(p.payload) }),
                )
            },
            FecEncoderView::NoFec => self,
        }
    }

    /// Whether the code has run every round of repairs that was due: no bin
    /// is full, and a bin takes a symbol at least.
    pub open spec fn drained(self) -> bool {
        match self {
            FecEncoderView::Maelstrom(m) => m.window > 0 && m.drained(),
            FecEncoderView::NoFec => true,
        }
    }

    /// Whether repair symbols are due.
    pub open spec fn should_generate(self) -> bool {
        match self {
            FecEncoderView::Maelstrom(m) => m.any_full(),
            FecEncoderView::NoFec => false,
        }
    }

    /// The repair symbols of a round.
    pub open spec fn repairs(self) -> Seq<PacketView> {
        match self {
            FecEncoderView::Maelstrom(m) => m.repairs(),
            FecEncoderView::NoFec => Seq::empty(),
        }
    }

    /// The code after a round.
    pub open spec fn after_round(self) -> Self {
        match self {
            FecEncoderView::Maelstrom(m) => FecEncoderView::Maelstrom(m.after_round()),
            FecEncoderView::NoFec => self,
        }
    }
}

impl View for FecEncoder {
    type V = FecEncoderView;

    open spec fn view(&self) -> FecEncoderView {
        match self {
            FecEncoder::Maelstrom(m) => FecEncoderView::Maelstrom(m@),
            FecEncoder::NoFec => FecEncoderView::NoFec,
        }
    }
}

impl FecEncoder {
    /// Adds FEC metadata to the packet and protects it.
    pub fn protect_symbol(&mut self, pkt: &mut Packet) -> (r: Result<(), Error>)
        requires
            old(self)@.wf(),
            old(self)@.admits(old(pkt)@),
        ensures
            final(self)@.wf(),
            old(self)@.refuses(old(pkt)@) <==> r.is_err(),
            r.is_err() ==> r == Err::<(), Error>(Error::FecDoubleMetadata),
            final(pkt)@ == old(self)@.protected(old(pkt)@),
            final(self)@ == old(self)@.protect(old(pkt)@),
    {
        match self {
            FecEncoder::Maelstrom(mael) => mael.protect_symbol(pkt),
            FecEncoder::NoFec => Ok(()),
        }
    }

    /// Whether the encoder should generate repair symbols.
    pub fn should_generate_rs(&mut self) -> (b: bool)
        ensures
            b == old(self)@.should_generate(),
            final(self)@ == old(self)@,
    {
        match self {
            FecEncoder::NoFec => false,
            FecEncoder::Maelstrom(mael) => mael.should_generate_rs(),
        }
    }

    /// Generates the repair symbols of a round.
    pub fn generate_rs(&mut self) -> (r: Result<Vec<Packet>, Error>)
        requires
            old(self)@.wf(),
        ensures
            final(self)@.wf(),
            r.is_ok(),
            packet_views(r.unwrap()@) == old(self)@.repairs(),
            final(self)@ == old(self)@.after_round(),
    {
        match self {
            FecEncoder::NoFec => {
                let out: Vec<Packet> = Vec::new();
                assert(packet_views(out@) =~= Seq::<PacketView>::empty());
                Ok(out)
            },
            FecEncoder::Maelstrom(mael) => mael.generate_rs(),
        }
    }

    /// The name under which the code goes in file names.
    pub fn label(&self) -> (name: String)
        ensures
            name@ == match self@ {
                FecEncoderView::Maelstrom(m) => crate::fec::maelstrom::maelstrom_label(m),
                FecEncoderView::NoFec => "none"@,
            },
    {
        match self {
            FecEncoder::Maelstrom(mael) => mael.label(),
            FecEncoder::NoFec => "none".to_owned(),
        }
    }

    /// Takes the decoder's report. Neither code here adapts to it.
    pub fn recv_feedback(&mut self, _nb_lost: u64, _nb_elems: u64)
        ensures
            final(self)@ == old(self)@,
    {
    }
}

/// The code that the decoder node applies.
pub enum FecDecoder {
    Maelstrom(MaelstromDecoder),
    /// No code: nothing is rebuilt.
    NoFec,
}

/// The decoder node's code as contracts see it.
pub enum FecDecoderView {
    Maelstrom(MaelstromDecoderView),
    NoFec,
}

impl FecDecoderView {
    /// The code is in order.
    pub open spec fn wf(self) -> bool {
        match self {
            FecDecoderView::Maelstrom(m) => m.wf(),
            FecDecoderView::NoFec => true,
        }
    }

    /// Every equation of the interleaved XOR code protects only symbols
    /// numbered below `bound`.
    pub open spec fn below(self, bound: nat) -> bool {
        match self {
            FecDecoderView::Maelstrom(m) => m.below(bound),
            FecDecoderView::NoFec => true,
        }
    }

    /// Whether the code can read the packet.
    pub open spec fn admits(self, p: PacketView) -> bool {
        match self {
            FecDecoderView::Maelstrom(_) => p.sound(),
            FecDecoderView::NoFec => true,
        }
    }

    /// What the arrival of the source symbol `p` yields.
    pub open spec fn source_outcome(self, p: PacketView) -> Result<Seq<PacketView>, Error> {
        match self {
            FecDecoderView::Maelstrom(m) => m.source_outcome(p),
            FecDecoderView::NoFec => Ok(Seq::empty()),
        }
    }

    /// The code after the arrival of the source symbol `p`.
    pub open spec fn after_source(self, p: PacketView) -> Self {
        match self {
            FecDecoderView::Maelstrom(m) => FecDecoderView::Maelstrom(m.after_source(p)),
            FecDecoderView::NoFec => self,
        }
    }

    /// What the arrival of the repair symbol `p` yields.
    pub open spec fn repair_outcome(self, p: PacketView) -> Result<Seq<PacketView>, Error> {
        match self {
            FecDecoderView::Maelstrom(m) => m.repair_outcome(p),
            FecDecoderView::NoFec => Ok(Seq::empty()),
        }
    }

    /// The code after the arrival of the repair symbol `p`.
    pub open spec fn after_repair(self, p: PacketView) -> Self {
        match self {
            FecDecoderView::Maelstrom(m) => FecDecoderView::Maelstrom(m.after_repair(p)),
            FecDecoderView::NoFec => self,
        }
    }
}

impl View for FecDecoder {
    type V = FecDecoderView;

    open spec fn view(&self) -> FecDecoderView {
        match self {
            FecDecoder::Maelstrom(m) => FecDecoderView::Maelstrom(m@),
            FecDecoder::NoFec => FecDecoderView::NoFec,
        }
    }
}

impl FecDecoder {
    /// Receives a source symbol. Returns the packets rebuilt.
    pub fn recv_ss(&mut self, pkt: &Packet) -> (r: Result<Vec<Packet>, Error>)
        requires
            old(self)@.wf(),
            old(self)@.admits(pkt@),
        ensures
            final(self)@.wf(),
            outcome_is(r, old(self)@.source_outcome(pkt@)),
            final(self)@ == old(self)@.after_source(pkt@),
    {
        match self {
            FecDecoder::Maelstrom(mael) => mael.recv_ss(pkt),
            FecDecoder::NoFec => {
                let out: Vec<Packet> = Vec::new();
                assert(packet_views(out@) =~= Seq::<PacketView>::empty());
                Ok(out)
            },
        }
    }

    /// Receives a repair symbol. Returns the packets rebuilt.
    pub fn recv_rs(&mut self, pkt: &Packet) -> (r: Result<Vec<Packet>, Error>)
        requires
            old(self)@.wf(),
            old(self)@.admits(pkt@),
        ensures
            final(self)@.wf(),
            outcome_is(r, old(self)@.repair_outcome(pkt@)),
            final(self)@ == old(self)@.after_repair(pkt@),
    {
        match self {
            FecDecoder::Maelstrom(mael) => mael.recv_rs(pkt),
            FecDecoder::NoFec => {
                let out: Vec<Packet> = Vec::new();
                assert(packet_views(out@) =~= Seq::<PacketView>::empty());
                Ok(out)
            },
        }
    }
}

} // verus!
