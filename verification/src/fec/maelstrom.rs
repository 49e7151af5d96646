//! The interleaved XOR code.
//!
//! The encoder numbers the source symbols and files each number in one bin
//! of every layer; a layer with `L` bins files number `n` in bin `n mod L`.
//! A bin that has gathered a window's worth of numbers emits one repair
//! symbol, the exclusive or of the payloads it stands for, and starts over.

use vstd::prelude::*;
use std::collections::HashMap;

pub mod laws;

use crate::fec::floor_sub;
use crate::fec::FecMetadata;
use crate::fec::FecMetadataView;
use crate::fec::FecRepairMetadata;
use crate::fec::FecRepairView;
use crate::fec::FecSourceMetadata;
use crate::fec::FecSourceView;
use crate::packet_views;
use crate::word::{be_seq, be_word, word_from_be, word_to_be};
use crate::Error;
use crate::Packet;
use crate::PacketView;

verus! {

broadcast use vstd::std_specs::hash::group_hash_axioms;

/// The number that the encoder gives a source symbol.
pub type MaelstromSSID = u64;

/// What a repair symbol of the interleaved XOR code carries.
#[derive(Clone, Debug)]
pub struct MaelstromRepairInfo {
    /// The source symbols that were summed into the repair symbol.
    pub(crate) ssid: Vec<MaelstromSSID>,
}

impl View for MaelstromRepairInfo {
    type V = Seq<u64>;

    closed spec fn view(&self) -> Seq<u64> {
        self.ssid@
    }
}

impl MaelstromRepairInfo {
    /// The source symbols that were summed into the repair symbol.
    pub fn get_ssid(&self) -> (list: &Vec<MaelstromSSID>)
        ensures
            list@ == self@,
    {
        &self.ssid
    }
}

/// A source symbol as the code sees it: its number and its payload, read
/// as a word.
#[derive(Clone, Copy, Debug, PartialEq, Eq, Structural)]
pub struct Symbol {
    pub id: u64,
    pub word: u64,
}

/// One more, up to the largest number.
pub open spec fn bumped(n: u64) -> u64 {
    if n < u64::MAX {
        (n + 1) as u64
    } else {
        n
    }
}

/// The test that a symbol is numbered above `floor`.
pub open spec fn newer_than(floor: u64) -> spec_fn(Symbol) -> bool {
    |s: Symbol| s.id > floor
}

/// `live` with `s` added, unless it is there already.
pub open spec fn with_symbol(live: Seq<Symbol>, s: Symbol) -> Seq<Symbol> {
    if live.contains(s) {
        live
    } else {
        live.push(s)
    }
}

/// The repair symbol that sums `ssids` to `value`.
pub open spec fn repair_view(value: u64, ssids: Seq<u64>) -> PacketView {
    PacketView {
        id: value,
        payload: be_seq(value),
        fec: Some(FecMetadataView::Repair(FecRepairView::Maelstrom(ssids))),
        recovered_from: None,
    }
}

/// Whether `x` occurs in `v`.
pub fn holds(v: &Vec<u64>, x: u64) -> (b: bool)
    ensures
        b == v@.contains(x),
{
    let mut i: usize = 0;
    while i < v.len()
        invariant
            0 <= i <= v.len(),
            forall|k: int| 0 <= k < i ==> v@[k] != x,
        decreases v.len() - i,
    {
        if v[i] == x {
            return true;
        }
        i = i + 1;
    }
    false
}

/// One cell of a layer.
#[derive(Debug)]
pub struct Bin {
    /// The source symbols gathered since the last repair symbol, each
    /// once.
    symbols: Vec<MaelstromSSID>,
    /// The exclusive or of the payloads of the symbols gathered.
    sum: u64,
    /// Repair symbols emitted so far.
    nb_rs: u64,
    /// How many source symbols make the bin emit.
    window_size: usize,
}

/// A bin as contracts see it.
pub struct BinView {
    pub symbols: Seq<u64>,
    pub sum: u64,
    pub nb_rs: u64,
    pub window: usize,
}

impl BinView {
    /// A bin that has emitted nothing and holds nothing.
    pub open spec fn fresh(window: usize) -> BinView {
        BinView { symbols: Seq::empty(), sum: 0, nb_rs: 0, window }
    }

    /// No symbol is listed twice.
    pub open spec fn wf(self) -> bool {
        self.symbols.no_duplicates()
    }

    /// The repair symbol that the bin emits: it carries the list and sums
    /// the payloads of all the symbols on it.
    pub open spec fn repair(self) -> PacketView {
        repair_view(self.sum, self.symbols)
    }

    /// Whether the bin has gathered a window's worth.
    pub open spec fn full(self) -> bool {
        self.symbols.len() >= self.window
    }

    /// The bin with the symbol `ssid` of payload `word` filed: listed and
    /// summed, unless the bin lists it already.
    pub open spec fn filed(self, ssid: u64, word: u64) -> BinView {
        if self.symbols.contains(ssid) {
            self
        } else {
            BinView { symbols: self.symbols.push(ssid), sum: self.sum ^ word, ..self }
        }
    }

    /// The bin after it has emitted: empty, and one repair symbol further.
    /// The count stops at the largest number.
    pub open spec fn emitted(self) -> BinView {
        BinView { symbols: Seq::empty(), sum: 0, nb_rs: bumped(self.nb_rs), ..self }
    }

    /// The bin after a round of repairs.
    pub open spec fn after_round(self) -> BinView {
        if self.full() {
            self.emitted()
        } else {
            self
        }
    }
}

impl View for Bin {
    type V = BinView;

    closed spec fn view(&self) -> BinView {
        BinView {
            symbols: self.symbols@,
            sum: self.sum,
            nb_rs: self.nb_rs,
            window: self.window_size,
        }
    }
}

impl Bin {
    /// An empty bin that fires at `window_size` symbols.
    pub fn new(window_size: usize) -> (b: Self)
        ensures
            b@ == BinView::fresh(window_size),
            b@.wf(),
    {
        Self { symbols: Vec::new(), sum: 0, nb_rs: 0, window_size }
    }

    /// Files the source symbol `ssid` of payload `word`, unless the bin
    /// lists it already.
    pub fn file(&mut self, ssid: MaelstromSSID, word: u64)
        requires
            old(self)@.wf(),
        ensures
            final(self)@ == old(self)@.filed(ssid, word),
            final(self)@.wf(),
    {
        if !holds(&self.symbols, ssid) {
            let ghost before = self.symbols@;
            self.symbols.push(ssid);
            self.sum = self.sum ^ word;
            proof {
                assert forall|a: int, b: int|
                    0 <= a < self.symbols@.len() && 0 <= b < self.symbols@.len() && a
                        != b implies self.symbols@[a] != self.symbols@[b] by {
                    if a < before.len() && b < before.len() {
                        assert(before[a] != before[b]);
                    } else if a < before.len() {
                        assert(before[a] == self.symbols@[a]);
                    } else {
                        assert(before[b] == self.symbols@[b]);
                    }
                }
            }
        }
    }

    /// Emits the repair symbol of a full bin and empties the bin. The repair
    /// symbol carries the bin's list and sums the payloads of all the
    /// symbols on it. A bin that is not full emits nothing and stays as it
    /// is.
    pub fn generate_rs(&mut self) -> (r: Option<Packet>)
        ensures
            old(self)@.full() ==> r.is_some() && r.unwrap()@ == old(self)@.repair(),
            !old(self)@.full() ==> r.is_none(),
            final(self)@ == old(self)@.after_round(),
            old(self)@.wf() ==> final(self)@.wf(),
    {
        if self.symbols.len() >= self.window_size {
            let value = self.sum;
            let mut listed: Vec<MaelstromSSID> = Vec::new();
            std::mem::swap(&mut self.symbols, &mut listed);
            let pkt = Packet {
                id: value,
                fec: Some(
                    FecMetadata::Repair(
                        FecRepairMetadata::Maelstrom(MaelstromRepairInfo { ssid: listed }),
                    ),
                ),
                recovered: None,
                data: word_to_be(value),
            };
            self.sum = 0;
            self.nb_rs = self.nb_rs.saturating_add(1);
            assert(self.symbols@ =~= Seq::<u64>::empty());
            Some(pkt)
        } else {
            None
        }
    }

    /// Whether the bin has gathered a window's worth.
    pub fn should_generate_rs(&self) -> (b: bool)
        ensures
            b == self@.full(),
    {
        self.symbols.len() >= self.window_size
    }

    /// How many repair symbols the bin has emitted.
    pub fn get_nb_rs(&self) -> (n: u64)
        ensures
            n == self@.nb_rs,
    {
        self.nb_rs
    }
}

/// The views of a layer's bins.
pub open spec fn bin_views(bins: Seq<Bin>) -> Seq<BinView> {
    bins.map_values(|b: Bin| b@)
}

/// The views of the bins of every layer.
pub open spec fn layer_views(layers: Seq<Vec<Bin>>) -> Seq<Seq<BinView>> {
    layers.map_values(|l: Vec<Bin>| bin_views(l@))
}

/// The repair symbols that one layer emits in a round, bin after bin.
pub open spec fn layer_repairs(bins: Seq<BinView>) -> Seq<PacketView>
    decreases bins.len(),
{
    if bins.len() == 0 {
        Seq::empty()
    } else {
        let before = layer_repairs(bins.drop_last());
        if bins.last().full() {
            before.push(bins.last().repair())
        } else {
            before
        }
    }
}

/// The repair symbols of a round: layer after layer, and bin after bin
/// within each.
pub open spec fn round_repairs(layers: Seq<Seq<BinView>>) -> Seq<PacketView>
    decreases layers.len(),
{
    if layers.len() == 0 {
        Seq::empty()
    } else {
        round_repairs(layers.drop_last()) + layer_repairs(layers.last())
    }
}

/// How many repair symbols the bins of a layer have emitted.
pub open spec fn layer_count(bins: Seq<BinView>) -> nat
    decreases bins.len(),
{
    if bins.len() == 0 {
        0
    } else {
        layer_count(bins.drop_last()) + bins.last().nb_rs as nat
    }
}

/// How many repair symbols all bins have emitted.
pub open spec fn round_count(layers: Seq<Seq<BinView>>) -> nat
    decreases layers.len(),
{
    if layers.len() == 0 {
        0
    } else {
        round_count(layers.drop_last()) + layer_count(layers.last())
    }
}

/// The numbers of bins of the layers, in decimal, joined by underscores.
pub open spec fn joined_sizes(layers: Seq<Seq<BinView>>) -> Seq<char>
    decreases layers.len(),
{
    if layers.len() == 0 {
        Seq::empty()
    } else if layers.len() == 1 {
        crate::word::decimal(layers.last().len())
    } else {
        joined_sizes(layers.drop_last()) + "_"@ + crate::word::decimal(layers.last().len())
    }
}

/// The name of an encoder in file names.
pub open spec fn maelstrom_label(e: MaelstromEncoderView) -> Seq<char> {
    "maelstrom_"@ + joined_sizes(e.layers) + "_"@ + crate::word::decimal(e.window as nat)
}

/// The sending side of the interleaved XOR code.
pub struct MaelstromEncoder {
    /// Number of the next source symbol.
    ssid: u64,
    /// The layers; each has as many bins as its interleave says.
    interleaves: Vec<Vec<Bin>>,
    /// The source symbols that are protected and still in scope, each
    /// once.
    pkts: Vec<Symbol>,
    /// How many source symbols fill a bin, and how far back symbols are kept.
    max_wnd: usize,
    /// The payload that each number was given out for.
    sent: Ghost<Map<u64, u64>>,
}

/// An encoder as contracts see it.
pub struct MaelstromEncoderView {
    pub next_ssid: u64,
    pub window: usize,
    pub layers: Seq<Seq<BinView>>,
    pub live: Seq<Symbol>,
    /// The payload of every source symbol protected so far, by its number.
    pub sent: Map<u64, u64>,
}

/// A list rises: each number is larger than the one before it.
pub open spec fn rising(list: Seq<u64>) -> bool {
    forall|a: int, b: int| 0 <= a < b < list.len() ==> list[a] < list[b]
}

/// Every number of the list leaves the rest `residue` when divided by
/// `modulus`.
pub open spec fn in_class(list: Seq<u64>, modulus: nat, residue: int) -> bool {
    forall|a: int| 0 <= a < list.len() ==> (#[trigger] list[a]) as int % modulus as int == residue
}

/// Every number of the list is below `bound`.
pub open spec fn all_below(list: Seq<u64>, bound: nat) -> bool {
    forall|a: int| 0 <= a < list.len() ==> (#[trigger] list[a]) < bound
}

impl MaelstromEncoderView {
    /// Every layer has a bin, and every bin fills at the encoder's window.
    pub open spec fn shaped(self) -> bool {
        &&& forall|i: int| 0 <= i < self.layers.len() ==> (#[trigger] self.layers[i]).len() > 0
        &&& forall|i: int, j: int|
            0 <= i < self.layers.len() && 0 <= j < self.layers[i].len() ==> (
            #[trigger] self.layers[i][j]).window == self.window
    }

    /// The bins hold numbers that the encoder has given out, each once:
    /// every bin's list rises and stays below the next number.
    pub open spec fn numbered(self) -> bool {
        forall|i: int, j: int|
            0 <= i < self.layers.len() && 0 <= j < self.layers[i].len() ==> rising(
                (#[trigger] self.layers[i][j]).symbols,
            ) && all_below(self.layers[i][j].symbols, self.next_ssid as nat)
    }

    /// Every bin sums what it lists: its sum is the exclusive or of the
    /// payloads, as they were sent, of the symbols on its list.
    pub open spec fn records(self) -> bool {
        forall|i: int, j: int|
            0 <= i < self.layers.len() && 0 <= j < self.layers[i].len() ==> (
            #[trigger] self.layers[i][j]).sum == xor_known(self.layers[i][j].symbols, self.sent)
                && forall|k: int|
                0 <= k < self.layers[i][j].symbols.len() ==> self.sent.dom().contains(
                    #[trigger] self.layers[i][j].symbols[k],
                )
    }

    /// Every symbol is filed in the bin that its number falls into: the
    /// list of bin `j` of a layer with `L` bins lies in the residue class of
    /// `j` modulo `L`.
    pub open spec fn placed(self) -> bool {
        forall|i: int, j: int|
            0 <= i < self.layers.len() && 0 <= j < self.layers[i].len() ==> in_class(
                (#[trigger] self.layers[i][j]).symbols,
                self.layers[i].len(),
                j,
            )
    }

    /// The encoder is in order: its layers are shaped, its bins numbered,
    /// placed and summed, and no symbol is held twice.
    pub open spec fn wf(self) -> bool {
        &&& self.shaped()
        &&& self.numbered()
        &&& self.placed()
        &&& self.records()
        &&& self.live.no_duplicates()
    }

    /// No bin is full: every round of repairs that was due has been run.
    pub open spec fn drained(self) -> bool {
        forall|i: int, j: int|
            0 <= i < self.layers.len() && 0 <= j < self.layers[i].len() ==> !(
            #[trigger] self.layers[i][j]).full()
    }

    /// No bin holds more than a window's worth.
    pub open spec fn filled(self) -> bool {
        forall|i: int, j: int|
            0 <= i < self.layers.len() && 0 <= j < self.layers[i].len() ==> (
            #[trigger] self.layers[i][j]).symbols.len() <= self.window
    }

    /// The number of bins of each layer.
    pub open spec fn sizes(self) -> Seq<nat> {
        Seq::new(self.layers.len(), |i: int| self.layers[i].len())
    }

    /// An encoder that has seen nothing, with one layer for each interleave.
    pub open spec fn initial(window: usize, interleaves: Seq<u64>) -> Self {
        MaelstromEncoderView {
            next_ssid: 0,
            window,
            layers: Seq::new(
                interleaves.len(),
                |i: int| Seq::new(interleaves[i] as nat, |j: int| BinView::fresh(window)),
            ),
            live: Seq::empty(),
            sent: Map::empty(),
        }
    }

    /// The layers once the symbol `ssid` of payload `word` is filed: in
    /// every layer, in the bin that the number falls into.
    pub open spec fn filed(self, ssid: u64, word: u64) -> Seq<Seq<BinView>> {
        Seq::new(
            self.layers.len(),
            |i: int|
                Seq::new(
                    self.layers[i].len(),
                    |j: int|
                        if j == ssid as int % self.layers[i].len() as int {
                            self.layers[i][j].filed(ssid, word)
                        } else {
                            self.layers[i][j]
                        },
                ),
        )
    }

    /// The encoder after it has protected the symbol `s`: symbols numbered
    /// at or below the next number less the window leave scope, `s` enters,
    /// and the next number is filed with the payload in every layer.
    pub open spec fn protect(self, s: Symbol) -> Self {
        MaelstromEncoderView {
            next_ssid: (self.next_ssid + 1) as u64,
            window: self.window,
            layers: self.filed(self.next_ssid, s.word),
            live: with_symbol(
                self.live.filter(newer_than(floor_sub(self.next_ssid, self.window as u64))),
                s,
            ),
            sent: self.sent.insert(self.next_ssid, s.word),
        }
    }

    /// Whether some bin is full.
    pub open spec fn any_full(self) -> bool {
        exists|i: int, j: int|
            0 <= i < self.layers.len() && 0 <= j < self.layers[i].len() && (
            #[trigger] self.layers[i][j]).full()
    }

    /// The repair symbols that a round emits.
    pub open spec fn repairs(self) -> Seq<PacketView> {
        round_repairs(self.layers)
    }

    /// The encoder after a round: every full bin has emitted.
    pub open spec fn after_round(self) -> Self {
        MaelstromEncoderView {
            layers: Seq::new(
                self.layers.len(),
                |i: int| Seq::new(self.layers[i].len(), |j: int| self.layers[i][j].after_round()),
            ),
            ..self
        }
    }
}

impl View for MaelstromEncoder {
    type V = MaelstromEncoderView;

    closed spec fn view(&self) -> MaelstromEncoderView {
        MaelstromEncoderView {
            next_ssid: self.ssid,
            window: self.max_wnd,
            layers: layer_views(self.interleaves@),
            live: self.pkts@,
            sent: self.sent@,
        }
    }
}

impl MaelstromEncoder {
    /// An encoder with one layer for each interleave. A layer needs a bin to
    /// file a symbol in, so no interleave is zero.
    pub fn new(window: usize, interleaves_values: &[u64]) -> (e: Self)
        requires
            forall|i: int|
                0 <= i < interleaves_values@.len() ==> 0 < #[trigger] interleaves_values@[i]
                    <= usize::MAX,
        ensures
            e@ == MaelstromEncoderView::initial(window, interleaves_values@),
            e@.wf(),
    {
        let mut interleaves: Vec<Vec<Bin>> = Vec::new();
        let mut i: usize = 0;
        while i < interleaves_values.len()
            invariant
                0 <= i <= interleaves_values@.len(),
                interleaves@.len() == i,
                forall|k: int|
                    0 <= k < interleaves_values@.len() ==> 0 < #[trigger] interleaves_values@[k]
                        <= usize::MAX,
                forall|k: int|
                    0 <= k < i ==> bin_views((#[trigger] interleaves@[k])@) == Seq::new(
                        interleaves_values@[k] as nat,
                        |j: int| BinView::fresh(window),
                    ),
            decreases interleaves_values@.len() - i,
        {
            let count = interleaves_values[i];
            let mut bins: Vec<Bin> = Vec::new();
            let mut j: u64 = 0;
            while j < count
                invariant
                    0 <= j <= count,
                    bins@.len() == j,
                    forall|k: int| 0 <= k < j ==> (#[trigger] bins@[k])@ == BinView::fresh(window),
                decreases count - j,
            {
                bins.push(Bin::new(window));
                j = j + 1;
            }
            assert(bin_views(bins@) =~= Seq::new(count as nat, |j: int| BinView::fresh(window)));
            interleaves.push(bins);
            i = i + 1;
        }
        let e = Self {
            ssid: 0,
            interleaves,
            pkts: Vec::new(),
            max_wnd: window,
            sent: Ghost(Map::empty()),
        };
        proof {
            let target = MaelstromEncoderView::initial(window, interleaves_values@);
            assert(e@.layers =~= target.layers);
            assert(e@.live =~= target.live);
            lemma_initial_wf(window, interleaves_values@);
        }
        e
    }

    /// Protects a new packet: gives it the next number, lets the symbols
    /// that have fallen out of the window go, takes the packet in, and files
    /// its number in every layer. A packet that already carries metadata is
    /// refused, and nothing changes.
    pub fn protect_symbol(&mut self, pkt: &mut Packet) -> (r: Result<(), Error>)
        requires
            old(self)@.wf(),
            old(self)@.next_ssid < u64::MAX,
            old(pkt)@.fec.is_none() ==> old(pkt)@.is_word(),
        ensures
            final(self)@.wf(),
            old(pkt)@.fec.is_some() ==> {
                &&& r == Err::<(), Error>(Error::FecDoubleMetadata)
                &&& final(pkt)@ == old(pkt)@
                &&& final(self)@ == old(self)@
            },
            old(pkt)@.fec.is_none() ==> r.is_ok() && final(pkt)@ == (PacketView {
                fec: Some(
                    FecMetadataView::Source(FecSourceView::Maelstrom(old(self)@.next_ssid)),
                ),
                ..old(pkt)@
            }) && final(self)@ == old(self)@.protect(
                Symbol { id: old(pkt)@.id, word: be_word(old(pkt)@.payload) },
            ),
    {
        let ssid = self.ssid;
        match pkt.add_fec_metadata(FecMetadata::Source(FecSourceMetadata::Maelstrom(ssid))) {
            Err(e) => {
                return Err(e);
            },
            Ok(()) => {},
        }
        let symbol = Symbol { id: pkt.id, word: word_from_be(&pkt.data) };

        // Let go of what has left the window.
        let floor = ssid.saturating_sub(self.max_wnd as u64);
        let ghost before = self.pkts@;
        let mut kept: Vec<Symbol> = Vec::new();
        let mut known = false;
        let mut k: usize = 0;
        while k < self.pkts.len()
            invariant
                0 <= k <= self.pkts.len(),
                self.pkts@ == before,
                kept@ == before.take(k as int).filter(newer_than(floor)),
                known == kept@.contains(symbol),
            decreases self.pkts.len() - k,
        {
            let s = self.pkts[k];
            proof {
                assert(before.take(k + 1) =~= before.take(k as int).push(s));
                before.take(k as int).lemma_filter_push(s, newer_than(floor));
            }
            if s.id > floor {
                let ghost prev = kept@;
                kept.push(s);
                if s == symbol {
                    known = true;
                }
                proof {
                    assert(kept@ == prev.push(s));
                    if prev.contains(symbol) {
                        let w = choose|w: int| 0 <= w < prev.len() && prev[w] == symbol;
                        assert(kept@[w] == symbol);
                    }
                    if s == symbol {
                        assert(kept@[prev.len() as int] == symbol);
                    }
                    if kept@.contains(symbol) && !prev.contains(symbol) {
                        let w = choose|w: int| 0 <= w < kept@.len() && kept@[w] == symbol;
                        assert(w == prev.len());
                    }
                }
            }
            k = k + 1;
        }
        proof {
            assert(before.take(self.pkts.len() as int) =~= before);
        }
        if !known {
            kept.push(symbol);
        }
        self.pkts = kept;

        // File the number in its bin of every layer.
        let ghost start = self.interleaves@;
        let mut i: usize = 0;
        while i < self.interleaves.len()
            invariant
                0 <= i <= self.interleaves@.len(),
                self.interleaves@.len() == start.len(),
                self.ssid == ssid,
                self.ssid == old(self).ssid,
                self.max_wnd == old(self).max_wnd,
                self.sent@ == old(self).sent@,
                start == old(self).interleaves@,
                old(self)@.wf(),
                self.pkts@ == with_symbol(before.filter(newer_than(floor)), symbol),
                forall|a: int| i <= a < start.len() ==> self.interleaves@[a] == start[a],
                forall|a: int|
                    0 <= a < i ==> bin_views((#[trigger] self.interleaves@[a])@) == old(self)@.filed(
                        ssid,
                        symbol.word,
                    )[a],
            decreases self.interleaves@.len() - i,
        {
            proof {
                assert(old(self)@.layers[i as int].len() > 0);
                assert(bin_views(start[i as int]@).len() == start[i as int]@.len());
            }
            let n = self.interleaves[i].len();
            let at = (ssid % (n as u64)) as usize;
            let ghost row = self.interleaves@[i as int]@;
            proof {
                assert(old(self)@.layers[i as int] == bin_views(row));
                assert(old(self)@.layers[i as int][at as int] == row[at as int]@);
                lemma_rising_once(row[at as int]@.symbols);
            }
            self.interleaves[i][at].file(ssid, symbol.word);
            proof {
                let now = bin_views(self.interleaves@[i as int]@);
                let want = old(self)@.filed(ssid, symbol.word)[i as int];
                assert(old(self)@.layers[i as int] == bin_views(row));
                assert(now.len() == want.len());
                assert forall|j: int| 0 <= j < now.len() implies now[j] == want[j] by {
                    assert(old(self)@.layers[i as int][j] == row[j]@);
                }
                assert(now =~= want);
            }
            i = i + 1;
        }
        self.ssid = ssid + 1;
        self.sent = Ghost(self.sent@.insert(ssid, symbol.word));
        proof {
            let want = old(self)@.protect(symbol);
            assert(self@.layers =~= want.layers);
            lemma_protect_wf(old(self)@, symbol);
        }
        Ok(())
    }

    /// Whether at least one bin of one layer is full.
    pub fn should_generate_rs(&self) -> (b: bool)
        ensures
            b == self@.any_full(),
    {
        let mut i: usize = 0;
        while i < self.interleaves.len()
            invariant
                0 <= i <= self.interleaves@.len(),
                forall|a: int, b: int|
                    0 <= a < i && 0 <= b < self@.layers[a].len() ==> !(
                    #[trigger] self@.layers[a][b]).full(),
            decreases self.interleaves@.len() - i,
        {
            let mut j: usize = 0;
            while j < self.interleaves[i].len()
                invariant
                    0 <= i < self.interleaves@.len(),
                    0 <= j <= self.interleaves@[i as int]@.len(),
                    forall|b: int| 0 <= b < j ==> !(#[trigger] self@.layers[i as int][b]).full(),
                decreases self.interleaves@[i as int]@.len() - j,
            {
                if self.interleaves[i][j].should_generate_rs() {
                    assert(self@.layers[i as int][j as int].full());
                    return true;
                }
                j = j + 1;
            }
            i = i + 1;
        }
        false
    }

    /// Runs a round: every full bin of every layer emits its repair symbol,
    /// in the order of the layers and of the bins within each.
    pub fn generate_rs(&mut self) -> (r: Result<Vec<Packet>, Error>)
        requires
            old(self)@.wf(),
        ensures
            final(self)@.wf(),
            r.is_ok(),
            packet_views(r.unwrap()@) == old(self)@.repairs(),
            final(self)@ == old(self)@.after_round(),
            forall|k: int|
                0 <= k < r.unwrap()@.len() ==> cancels((#[trigger] r.unwrap()@[k])@, old(self)@.sent),
    {
        let mut out: Vec<Packet> = Vec::new();
        let ghost start = self@;
        let mut i: usize = 0;
        while i < self.interleaves.len()
            invariant
                0 <= i <= self.interleaves@.len(),
                start == old(self)@,
                self.ssid == old(self).ssid,
                self.max_wnd == old(self).max_wnd,
                self.pkts@ == old(self).pkts@,
                self.sent@ == old(self).sent@,
                self@.layers.len() == start.layers.len(),
                forall|a: int| i <= a < start.layers.len() ==> self@.layers[a] == start.layers[a],
                forall|a: int|
                    0 <= a < i ==> #[trigger] self@.layers[a] == start.after_round().layers[a],
                packet_views(out@) == round_repairs(start.layers.take(i as int)),
            decreases self.interleaves@.len() - i,
        {
            let ghost row = start.layers[i as int];
            let ghost done = packet_views(out@);
            let mut j: usize = 0;
            while j < self.interleaves[i].len()
                invariant
                    0 <= i < self.interleaves@.len(),
                    0 <= j <= self.interleaves@[i as int]@.len(),
                    start == old(self)@,
                    row == start.layers[i as int],
                    self.ssid == old(self).ssid,
                    self.max_wnd == old(self).max_wnd,
                    self.pkts@ == old(self).pkts@,
                    self.sent@ == old(self).sent@,
                    self@.layers.len() == start.layers.len(),
                    self@.layers[i as int].len() == row.len(),
                    forall|a: int|
                        0 <= a < start.layers.len() && a != i ==> #[trigger] self@.layers[a] == (if a < i {
                            start.after_round().layers[a]
                        } else {
                            start.layers[a]
                        }),
                    forall|b: int| j <= b < row.len() ==> self@.layers[i as int][b] == row[b],
                    forall|b: int|
                        0 <= b < j ==> #[trigger] self@.layers[i as int][b] == row[b].after_round(),
                    packet_views(out@) == done + layer_repairs(row.take(j as int)),
                decreases self.interleaves@[i as int]@.len() - j,
            {
                let ghost layers_before = self@.layers;
                let ghost out_before = packet_views(out@);
                proof {
                    assert(row.take(j + 1).drop_last() =~= row.take(j as int));
                    assert(self@.layers[i as int][j as int] == row[j as int]);
                }
                match self.interleaves[i][j].generate_rs() {
                    Some(pkt) => {
                        out.push(pkt);
                        proof {
                            assert(packet_views(out@) =~= out_before.push(pkt@));
                        }
                    },
                    None => {},
                }
                proof {
                    assert(self@.layers.len() == layers_before.len());
                    assert forall|a: int|
                        0 <= a < start.layers.len() && a != i implies #[trigger] self@.layers[a]
                        == layers_before[a] by {}
                    assert(self@.layers[i as int].len() == row.len());
                    assert forall|b: int| 0 <= b < row.len() && b != j implies #[trigger] self@.layers[i as int][b]
                        == layers_before[i as int][b] by {
                        assert(self@.layers[i as int][b] == self.interleaves@[i as int]@[b]@);
                    }
                    assert(self@.layers[i as int][j as int] == self.interleaves@[i as int]@[j as int]@);
                    assert(self@.layers[i as int][j as int] == row[j as int].after_round());
                    assert(packet_views(out@) =~= done + layer_repairs(row.take(j + 1)));
                }
                j = j + 1;
            }
            proof {
                assert(row.take(row.len() as int) =~= row);
                assert(start.layers.take(i + 1).drop_last() =~= start.layers.take(i as int));
                assert(self@.layers[i as int] =~= start.after_round().layers[i as int]);
            }
            i = i + 1;
        }
        proof {
            assert(start.layers.take(start.layers.len() as int) =~= start.layers);
            assert(self@.layers =~= start.after_round().layers);
            lemma_round_wf(start);
            lemma_round_cancels(start);
            assert forall|k: int| 0 <= k < out@.len() implies cancels(
                (#[trigger] out@[k])@,
                start.sent,
            ) by {
                assert(packet_views(out@)[k] == out@[k]@);
            }
        }
        Ok(out)
    }

    /// The name under which the encoder goes in file names: the word
    /// `maelstrom`, the number of bins of each layer, and the window, joined
    /// by underscores.
    pub fn label(&self) -> (name: String)
        ensures
            name@ == maelstrom_label(self@),
    {
        let mut name = "maelstrom_".to_owned();
        let mut i: usize = 0;
        proof {
            assert(self@.layers.take(0) =~= Seq::<Seq<BinView>>::empty());
            assert(name@ =~= "maelstrom_"@ + joined_sizes(self@.layers.take(0)));
        }
        while i < self.interleaves.len()
            invariant
                0 <= i <= self.interleaves@.len(),
                name@ == "maelstrom_"@ + joined_sizes(self@.layers.take(i as int)),
            decreases self.interleaves@.len() - i,
        {
            let ghost before = name@;
            proof {
                assert(self@.layers.take(i + 1).drop_last() =~= self@.layers.take(i as int));
                assert(self@.layers.take(i + 1).last().len() == self.interleaves@[i as int]@.len());
            }
            if i > 0 {
                vstd::string::StringExecFns::append(&mut name, "_");
            }
            crate::word::push_decimal(&mut name, self.interleaves[i].len() as u64);
            proof {
                let sizes = joined_sizes(self@.layers.take(i as int));
                let size = crate::word::decimal(self.interleaves@[i as int]@.len() as nat);
                if i > 0 {
                    assert(name@ =~= "maelstrom_"@ + (sizes + "_"@ + size));
                } else {
                    assert(name@ =~= "maelstrom_"@ + size);
                }
            }
            i = i + 1;
        }
        proof {
            assert(self@.layers.take(self@.layers.len() as int) =~= self@.layers);
        }
        let ghost sizes = name@;
        vstd::string::StringExecFns::append(&mut name, "_");
        crate::word::push_decimal(&mut name, self.max_wnd as u64);
        proof {
            assert(name@ =~= maelstrom_label(self@));
        }
        name
    }

    /// The number of repair symbols emitted so far, over all bins. The count
    /// stops at the largest number.
    pub fn get_nb_rs(&self) -> (n: u64)
        ensures
            n == if round_count(self@.layers) <= u64::MAX {
                round_count(self@.layers)
            } else {
                u64::MAX as nat
            },
    {
        let mut total: u64 = 0;
        let mut i: usize = 0;
        while i < self.interleaves.len()
            invariant
                0 <= i <= self.interleaves@.len(),
                total == if round_count(self@.layers.take(i as int)) <= u64::MAX {
                    round_count(self@.layers.take(i as int))
                } else {
                    u64::MAX as nat
                },
            decreases self.interleaves@.len() - i,
        {
            let ghost row = self@.layers[i as int];
            let ghost base = round_count(self@.layers.take(i as int));
            let mut j: usize = 0;
            while j < self.interleaves[i].len()
                invariant
                    0 <= i < self.interleaves@.len(),
                    0 <= j <= self.interleaves@[i as int]@.len(),
                    row == self@.layers[i as int],
                    base == round_count(self@.layers.take(i as int)),
                    total == if base + layer_count(row.take(j as int)) <= u64::MAX {
                        base + layer_count(row.take(j as int))
                    } else {
                        u64::MAX as nat
                    },
                decreases self.interleaves@[i as int]@.len() - j,
            {
                proof {
                    assert(row.take(j + 1).drop_last() =~= row.take(j as int));
                    assert(row[j as int] == self.interleaves@[i as int]@[j as int]@);
                }
                total = total.saturating_add(self.interleaves[i][j].get_nb_rs());
                j = j + 1;
            }
            proof {
                assert(row.take(row.len() as int) =~= row);
                assert(self@.layers.take(i + 1).drop_last() =~= self@.layers.take(i as int));
            }
            i = i + 1;
        }
        proof {
            assert(self@.layers.take(self@.layers.len() as int) =~= self@.layers);
        }
        total
    }
}


/// The list that a repair symbol of this code carries; empty for any
/// other packet.
pub open spec fn listed(r: PacketView) -> Seq<u64> {
    match r.fec {
        Some(FecMetadataView::Repair(FecRepairView::Maelstrom(list))) => list,
        _ => Seq::empty(),
    }
}

/// Whether the repair symbol `r` cancels against what it protects: its
/// payload, summed byte by byte with the payloads, as they were sent, of all
/// the source symbols on its list, is all zero.
pub open spec fn cancels(r: PacketView, sent: Map<u64, u64>) -> bool {
    crate::word::xor_bytes(r.payload, be_seq(xor_known(listed(r), sent))) == be_seq(0)
}

/// Whether every symbol of the list has been sent.
pub open spec fn all_sent(list: Seq<u64>, sent: Map<u64, u64>) -> bool {
    forall|k: int| 0 <= k < list.len() ==> sent.dom().contains(#[trigger] list[k])
}

/// A list that rises names nothing twice.
pub proof fn lemma_rising_once(list: Seq<u64>)
    requires
        rising(list),
    ensures
        list.no_duplicates(),
{
    assert forall|a: int, b: int| 0 <= a < list.len() && 0 <= b < list.len() && a
        != b implies list[a] != list[b] by {
        if a < b {
            assert(list[a] < list[b]);
        } else {
            assert(list[b] < list[a]);
        }
    }
}

/// The sum of the known words of a list depends on the words of the list
/// only.
pub proof fn lemma_xor_known_agrees(need: Seq<u64>, a: Map<u64, u64>, b: Map<u64, u64>)
    requires
        forall|k: int|
            0 <= k < need.len() ==> (a.dom().contains(#[trigger] need[k]) <==> b.dom().contains(
                need[k],
            )) && (a.dom().contains(need[k]) ==> a[need[k]] == b[need[k]]),
    ensures
        xor_known(need, a) == xor_known(need, b),
    decreases need.len(),
{
    if need.len() > 0 {
        let front = need.drop_last();
        assert forall|k: int| 0 <= k < front.len() implies (a.dom().contains(
            #[trigger] front[k],
        ) <==> b.dom().contains(front[k])) && (a.dom().contains(front[k]) ==> a[front[k]]
            == b[front[k]]) by {
            assert(front[k] == need[k]);
        }
        lemma_xor_known_agrees(front, a, b);
        assert(need[need.len() - 1] == need.last());
    }
}

/// What is kept of a list without repetitions has none.
pub proof fn lemma_filter_once(live: Seq<Symbol>, pred: spec_fn(Symbol) -> bool)
    requires
        live.no_duplicates(),
    ensures
        live.filter(pred).no_duplicates(),
    decreases live.len(),
{
    reveal(Seq::filter);
    if live.len() > 0 {
        let front = live.drop_last();
        let last = live.last();
        assert(front.no_duplicates()) by {
            assert forall|a: int, b: int| 0 <= a < front.len() && 0 <= b < front.len() && a
                != b implies front[a] != front[b] by {
                assert(front[a] == live[a] && front[b] == live[b]);
            }
        }
        lemma_filter_once(front, pred);
        assert(front.push(last) =~= live);
        front.lemma_filter_push(last, pred);
        let kept = front.filter(pred);
        if pred(last) {
            let now = kept.push(last);
            assert forall|a: int, b: int| 0 <= a < now.len() && 0 <= b < now.len() && a
                != b implies now[a] != now[b] by {
                if a < kept.len() && b < kept.len() {
                    assert(kept[a] != kept[b]);
                } else {
                    let c = if a < kept.len() {
                        a
                    } else {
                        b
                    };
                    assert(kept.contains(kept[c]));
                    front.lemma_filter_contains_rev(pred, kept[c]);
                    let w = choose|w: int| 0 <= w < front.len() && front[w] == kept[c];
                    assert(live[w] == kept[c]);
                    assert(live[live.len() - 1] == last);
                }
            }
        }
    }
}

/// A fresh encoder is in order.
pub proof fn lemma_initial_wf(window: usize, interleaves: Seq<u64>)
    requires
        forall|i: int| 0 <= i < interleaves.len() ==> #[trigger] interleaves[i] > 0,
    ensures
        MaelstromEncoderView::initial(window, interleaves).wf(),
{
    let e = MaelstromEncoderView::initial(window, interleaves);
    assert forall|i: int, j: int|
        0 <= i < e.layers.len() && 0 <= j < e.layers[i].len() implies (#[trigger] e.layers[i][j]).sum
        == xor_known(e.layers[i][j].symbols, e.sent) by {}
    assert forall|i: int| 0 <= i < e.layers.len() implies (#[trigger] e.layers[i]).len() > 0 by {
        assert(interleaves[i] > 0);
    }
}

/// Protecting a symbol keeps the encoder in order.
pub proof fn lemma_protect_wf(e: MaelstromEncoderView, s: Symbol)
    requires
        e.wf(),
        e.next_ssid < u64::MAX,
    ensures
        e.protect(s).wf(),
{
    let after = e.protect(s);
    let ssid = e.next_ssid;
    assert forall|i: int| 0 <= i < after.layers.len() implies (#[trigger] after.layers[i]).len()
        > 0 by {
        assert(e.layers[i].len() > 0);
    }
    assert forall|i: int, j: int|
        0 <= i < after.layers.len() && 0 <= j < after.layers[i].len() implies {
        let bin = #[trigger] after.layers[i][j];
        &&& bin.window == after.window
        &&& rising(bin.symbols)
        &&& all_below(bin.symbols, after.next_ssid as nat)
        &&& in_class(bin.symbols, after.layers[i].len(), j)
        &&& bin.sum == xor_known(bin.symbols, after.sent)
        &&& forall|k: int| 0 <= k < bin.symbols.len() ==> after.sent.dom().contains(
            #[trigger] bin.symbols[k],
        )
    } by {
        let was = e.layers[i][j];
        let bin = after.layers[i][j];
        assert(was.window == e.window);
        assert(rising(was.symbols) && all_below(was.symbols, ssid as nat));
        assert(in_class(was.symbols, e.layers[i].len(), j));
        assert(was.sum == xor_known(was.symbols, e.sent));
        assert(!was.symbols.contains(ssid)) by {
            if was.symbols.contains(ssid) {
                let k = choose|k: int| 0 <= k < was.symbols.len() && was.symbols[k] == ssid;
                assert(was.symbols[k] < ssid);
            }
        }
        assert forall|k: int| 0 <= k < was.symbols.len() implies (e.sent.dom().contains(
            #[trigger] was.symbols[k],
        ) <==> after.sent.dom().contains(was.symbols[k])) && (e.sent.dom().contains(
            was.symbols[k],
        ) ==> e.sent[was.symbols[k]] == after.sent[was.symbols[k]]) by {
            assert(was.symbols[k] < ssid);
        }
        lemma_xor_known_agrees(was.symbols, e.sent, after.sent);
        if bin != was {
            assert(bin.symbols == was.symbols.push(ssid));
            assert(bin.symbols.drop_last() =~= was.symbols);
            assert(bin.symbols.last() == ssid);
            assert forall|k: int| 0 <= k < bin.symbols.len() implies after.sent.dom().contains(
                #[trigger] bin.symbols[k],
            ) by {
                if k < was.symbols.len() {
                    assert(bin.symbols[k] == was.symbols[k]);
                }
            }
            assert forall|a: int| 0 <= a < bin.symbols.len() implies (#[trigger] bin.symbols[a]) as int
                % after.layers[i].len() as int == j by {
                if a < was.symbols.len() {
                    assert(bin.symbols[a] == was.symbols[a]);
                }
            }
        }
    }
    lemma_filter_once(e.live, newer_than(floor_sub(ssid, e.window as u64)));
    let kept = e.live.filter(newer_than(floor_sub(ssid, e.window as u64)));
    if !kept.contains(s) {
        let now = kept.push(s);
        assert forall|a: int, b: int| 0 <= a < now.len() && 0 <= b < now.len() && a
            != b implies now[a] != now[b] by {
            if a < kept.len() && b < kept.len() {
                assert(kept[a] != kept[b]);
            } else if a < kept.len() {
                assert(kept.contains(kept[a]));
            } else {
                assert(kept.contains(kept[b]));
            }
        }
    }
}

/// A round of repairs keeps the encoder in order.
pub proof fn lemma_round_wf(e: MaelstromEncoderView)
    requires
        e.wf(),
    ensures
        e.after_round().wf(),
{
    let after = e.after_round();
    assert forall|i: int| 0 <= i < after.layers.len() implies (#[trigger] after.layers[i]).len()
        > 0 by {
        assert(e.layers[i].len() > 0);
    }
    assert forall|i: int, j: int|
        0 <= i < after.layers.len() && 0 <= j < after.layers[i].len() implies {
        let bin = #[trigger] after.layers[i][j];
        &&& bin.window == after.window
        &&& rising(bin.symbols)
        &&& all_below(bin.symbols, after.next_ssid as nat)
        &&& in_class(bin.symbols, after.layers[i].len(), j)
        &&& bin.sum == xor_known(bin.symbols, after.sent)
        &&& forall|k: int| 0 <= k < bin.symbols.len() ==> after.sent.dom().contains(
            #[trigger] bin.symbols[k],
        )
    } by {
        let was = e.layers[i][j];
        assert(was.window == e.window);
        assert(rising(was.symbols) && all_below(was.symbols, e.next_ssid as nat));
        assert(in_class(was.symbols, e.layers[i].len(), j));
        assert(was.sum == xor_known(was.symbols, e.sent));
    }
}

/// Every repair symbol of a round cancels against the source symbols it
/// protects: each is the repair symbol of a bin, which sums the payloads, as
/// they were sent, of all the symbols on its list.
pub proof fn lemma_round_cancels(e: MaelstromEncoderView)
    requires
        e.wf(),
    ensures
        forall|k: int|
            0 <= k < e.repairs().len() ==> {
                let r = #[trigger] e.repairs()[k];
                &&& cancels(r, e.sent)
                &&& rising(listed(r))
                &&& all_below(listed(r), e.next_ssid as nat)
                &&& all_sent(listed(r), e.sent)
                &&& r == repair_view(xor_known(listed(r), e.sent), listed(r))
            },
{
    lemma_round_repairs_cancel(e, e.layers.len() as int);
    assert(e.layers.take(e.layers.len() as int) =~= e.layers);
}

proof fn lemma_round_repairs_cancel(e: MaelstromEncoderView, n: int)
    requires
        e.wf(),
        0 <= n <= e.layers.len(),
    ensures
        forall|k: int|
            0 <= k < round_repairs(e.layers.take(n)).len() ==> {
                let r = #[trigger] round_repairs(e.layers.take(n))[k];
                &&& cancels(r, e.sent)
                &&& rising(listed(r))
                &&& all_below(listed(r), e.next_ssid as nat)
                &&& all_sent(listed(r), e.sent)
                &&& r == repair_view(xor_known(listed(r), e.sent), listed(r))
            },
    decreases n,
{
    if n > 0 {
        lemma_round_repairs_cancel(e, n - 1);
        assert(e.layers.take(n).drop_last() =~= e.layers.take(n - 1));
        assert(e.layers.take(n).last() == e.layers[n - 1]);
        lemma_layer_repairs_cancel(e, n - 1, e.layers[n - 1].len() as int);
        assert(e.layers[n - 1].take(e.layers[n - 1].len() as int) =~= e.layers[n - 1]);
        let before = round_repairs(e.layers.take(n - 1));
        let added = layer_repairs(e.layers[n - 1]);
        let now = round_repairs(e.layers.take(n));
        assert(now == before + added);
        assert forall|k: int| 0 <= k < now.len() implies {
            let r = #[trigger] now[k];
            &&& cancels(r, e.sent)
            &&& rising(listed(r))
            &&& all_below(listed(r), e.next_ssid as nat)
            &&& all_sent(listed(r), e.sent)
            &&& r == repair_view(xor_known(listed(r), e.sent), listed(r))
        } by {
            if k < before.len() {
                assert(now[k] == before[k]);
            } else {
                assert(now[k] == added[k - before.len()]);
            }
        }
    }
}

proof fn lemma_layer_repairs_cancel(e: MaelstromEncoderView, i: int, m: int)
    requires
        e.wf(),
        0 <= i < e.layers.len(),
        0 <= m <= e.layers[i].len(),
    ensures
        forall|k: int|
            0 <= k < layer_repairs(e.layers[i].take(m)).len() ==> {
                let r = #[trigger] layer_repairs(e.layers[i].take(m))[k];
                &&& cancels(r, e.sent)
                &&& rising(listed(r))
                &&& all_below(listed(r), e.next_ssid as nat)
                &&& all_sent(listed(r), e.sent)
                &&& r == repair_view(xor_known(listed(r), e.sent), listed(r))
            },
    decreases m,
{
    if m > 0 {
        lemma_layer_repairs_cancel(e, i, m - 1);
        let bins = e.layers[i].take(m);
        assert(bins.drop_last() =~= e.layers[i].take(m - 1));
        assert(bins.last() == e.layers[i][m - 1]);
        let bin = e.layers[i][m - 1];
        assert(rising(bin.symbols) && all_below(bin.symbols, e.next_ssid as nat));
        assert(bin.sum == xor_known(bin.symbols, e.sent));
        let before = layer_repairs(bins.drop_last());
        let now = layer_repairs(bins);
        assert forall|k: int| 0 <= k < now.len() implies {
            let r = #[trigger] now[k];
            &&& cancels(r, e.sent)
            &&& rising(listed(r))
            &&& all_below(listed(r), e.next_ssid as nat)
            &&& all_sent(listed(r), e.sent)
            &&& r == repair_view(xor_known(listed(r), e.sent), listed(r))
        } by {
            if k < before.len() {
                assert(now[k] == before[k]);
            } else {
                let r = bin.repair();
                assert(now[k] == r);
                crate::word::lemma_xor_bytes(bin.sum, bin.sum);
                assert(bin.sum ^ bin.sum == 0) by (bit_vector);
            }
        }
    }
}

/// What the decoder can do with an equation, by the number of source
/// symbols that it still lacks.
#[derive(Clone, Copy, Debug, PartialEq, Eq, Structural)]
pub enum DecoderAction {
    /// More than one symbol is missing.
    Missing,
    /// One symbol is missing: it can be rebuilt.
    Recover,
    /// Nothing is missing: the equation can go.
    Redundant,
}

/// The class of an equation that lacks `lacking` symbols.
pub open spec fn action_of(lacking: nat) -> DecoderAction {
    if lacking == 0 {
        DecoderAction::Redundant
    } else if lacking == 1 {
        DecoderAction::Recover
    } else {
        DecoderAction::Missing
    }
}

/// The numbers of `need` that are not in `known`, in the order of `need`.
pub open spec fn missing(need: Seq<u64>, known: Set<u64>) -> Seq<u64>
    decreases need.len(),
{
    if need.len() == 0 {
        Seq::empty()
    } else {
        let rest = missing(need.drop_last(), known);
        if known.contains(need.last()) {
            rest
        } else {
            rest.push(need.last())
        }
    }
}

/// The exclusive or of the known words among `need`.
pub open spec fn xor_known(need: Seq<u64>, known: Map<u64, u64>) -> u64
    decreases need.len(),
{
    if need.len() == 0 {
        0
    } else {
        let rest = xor_known(need.drop_last(), known);
        if known.dom().contains(need.last()) {
            rest ^ known[need.last()]
        } else {
            rest
        }
    }
}

/// `list` without repetitions: each number where it first occurs.
pub open spec fn distinct(list: Seq<u64>) -> Seq<u64>
    decreases list.len(),
{
    if list.len() == 0 {
        Seq::empty()
    } else {
        let rest = distinct(list.drop_last());
        if rest.contains(list.last()) {
            rest
        } else {
            rest.push(list.last())
        }
    }
}

/// A source symbol rebuilt by the decoder: it carries its number as a
/// source symbol would, and how far behind the triggering packet it lies.
pub open spec fn recovered_view(ssid: u64, word: u64, trigger: u64) -> PacketView {
    PacketView {
        id: ssid,
        payload: be_seq(word),
        fec: Some(FecMetadataView::Source(FecSourceView::Maelstrom(ssid))),
        recovered_from: Some(crate::fec::floor_sub(trigger, ssid)),
    }
}

/// A repair symbol kept until it has served: the symbols it protects and
/// its payload.
#[derive(Debug)]
pub struct Equation {
    /// The source symbols that the repair symbol sums, each once.
    need_ssid: Vec<MaelstromSSID>,
    /// The payload of the repair symbol.
    repair: u64,
}

/// An equation as contracts see it.
pub struct EquationView {
    pub need: Seq<u64>,
    pub repair: u64,
}

impl EquationView {
    /// The equation that a repair symbol with this list and payload gives.
    pub open spec fn of(list: Seq<u64>, payload: Seq<u8>) -> EquationView {
        EquationView { need: distinct(list), repair: be_word(payload) }
    }

    /// The protected symbols that are not in `known`.
    pub open spec fn lacking(self, known: Set<u64>) -> Seq<u64> {
        missing(self.need, known)
    }

    /// The class of the equation.
    pub open spec fn action(self, known: Set<u64>) -> DecoderAction {
        action_of(self.lacking(known).len())
    }

    /// The payload of the one missing symbol: the repair symbol's payload
    /// summed with the payloads of the symbols that are known.
    pub open spec fn solution(self, known: Map<u64, u64>) -> u64 {
        self.repair ^ xor_known(self.need, known)
    }

    /// Whether this equation still lacks a symbol.
    pub open spec fn open_under(self, known: Set<u64>) -> bool {
        self.lacking(known).len() > 0
    }
}

/// The test that an equation still lacks a symbol.
pub open spec fn still_open(known: Set<u64>) -> spec_fn(EquationView) -> bool {
    |e: EquationView| e.open_under(known)
}

impl View for Equation {
    type V = EquationView;

    closed spec fn view(&self) -> EquationView {
        EquationView { need: self.need_ssid@, repair: self.repair }
    }
}

/// The views of a run of equations.
pub open spec fn equation_views(eqs: Seq<Equation>) -> Seq<EquationView> {
    eqs.map_values(|e: Equation| e@)
}

/// A list without its repetitions names nothing twice.
pub proof fn lemma_distinct_once(list: Seq<u64>)
    ensures
        distinct(list).no_duplicates(),
    decreases list.len(),
{
    if list.len() > 0 {
        lemma_distinct_once(list.drop_last());
        let rest = distinct(list.drop_last());
        if !rest.contains(list.last()) {
            let now = rest.push(list.last());
            assert forall|a: int, b: int| 0 <= a < now.len() && 0 <= b < now.len() && a
                != b implies now[a] != now[b] by {
                if a < rest.len() && b < rest.len() {
                    assert(rest[a] != rest[b]);
                } else if a < rest.len() {
                    assert(rest.contains(rest[a]));
                } else {
                    assert(rest.contains(rest[b]));
                }
            }
        }
    }
}

/// The smallest number in `list`, if it has one.
pub fn smallest(list: &Vec<u64>) -> (m: Option<u64>)
    ensures
        list@.len() == 0 <==> m.is_none(),
        m.is_some() ==> list@.contains(m.unwrap()) && forall|k: int|
            0 <= k < list@.len() ==> m.unwrap() <= list@[k],
{
    if list.len() == 0 {
        return None;
    }
    let mut best = list[0];
    let mut i: usize = 1;
    while i < list.len()
        invariant
            1 <= i <= list.len(),
            list@.contains(best),
            forall|k: int| 0 <= k < i ==> best <= list@[k],
        decreases list.len() - i,
    {
        if list[i] < best {
            best = list[i];
        }
        i = i + 1;
    }
    Some(best)
}

impl Equation {
    /// The equation of a repair symbol. A packet that carries anything
    /// other than this code's repair metadata gives none.
    pub fn new(repair: &Packet) -> (r: Result<Self, Error>)
        requires
            repair@.sound(),
        ensures
            match repair@.fec {
                Some(FecMetadataView::Repair(FecRepairView::Maelstrom(list))) => r.is_ok()
                    && r.unwrap()@ == EquationView::of(list, repair@.payload),
                _ => r == Err::<Self, Error>(Error::FecWrongMetadata),
            },
            r.is_ok() ==> r.unwrap()@.need.no_duplicates(),
    {
        match &repair.fec {
            Some(FecMetadata::Repair(FecRepairMetadata::Maelstrom(info))) => {
                let mut need: Vec<MaelstromSSID> = Vec::new();
                let mut i: usize = 0;
                while i < info.ssid.len()
                    invariant
                        0 <= i <= info.ssid@.len(),
                        need@ == distinct(info.ssid@.take(i as int)),
                    decreases info.ssid@.len() - i,
                {
                    proof {
                        assert(info.ssid@.take(i + 1).drop_last() =~= info.ssid@.take(i as int));
                    }
                    if !holds(&need, info.ssid[i]) {
                        need.push(info.ssid[i]);
                    }
                    i = i + 1;
                }
                proof {
                    assert(info.ssid@.take(info.ssid@.len() as int) =~= info.ssid@);
                    lemma_distinct_once(info.ssid@);
                }
                Ok(Self { need_ssid: need, repair: word_from_be(&repair.data) })
            },
            _ => Err(Error::FecWrongMetadata),
        }
    }

    /// How many protected symbols are missing, and the first of them.
    fn count_missing(&self, known: &HashMap<u64, u64>) -> (r: (usize, u64))
        ensures
            r.0 == self@.lacking(known@.dom()).len(),
            r.0 > 0 ==> r.1 == self@.lacking(known@.dom())[0],
    {
        let mut count: usize = 0;
        let mut first: u64 = 0;
        let mut i: usize = 0;
        while i < self.need_ssid.len()
            invariant
                0 <= i <= self.need_ssid@.len(),
                count == missing(self.need_ssid@.take(i as int), known@.dom()).len(),
                count <= i,
                count > 0 ==> first == missing(self.need_ssid@.take(i as int), known@.dom())[0],
            decreases self.need_ssid@.len() - i,
        {
            proof {
                assert(self.need_ssid@.take(i + 1).drop_last() =~= self.need_ssid@.take(i as int));
            }
            if !known.contains_key(&self.need_ssid[i]) {
                if count == 0 {
                    first = self.need_ssid[i];
                }
                count = count + 1;
            }
            i = i + 1;
        }
        proof {
            assert(self.need_ssid@.take(self.need_ssid@.len() as int) =~= self.need_ssid@);
        }
        (count, first)
    }

    /// The class of the equation, given what is known.
    pub fn action(&self, known: &HashMap<u64, u64>) -> (a: DecoderAction)
        ensures
            a == self@.action(known@.dom()),
    {
        let (count, _first) = self.count_missing(known);
        if count == 0 {
            DecoderAction::Redundant
        } else if count == 1 {
            DecoderAction::Recover
        } else {
            DecoderAction::Missing
        }
    }

    /// The sum of the repair symbol with the known symbols it protects.
    fn solve(&self, known: &HashMap<u64, u64>) -> (word: u64)
        ensures
            word == self@.solution(known@),
    {
        let mut sum: u64 = 0;
        let mut i: usize = 0;
        while i < self.need_ssid.len()
            invariant
                0 <= i <= self.need_ssid@.len(),
                sum == xor_known(self.need_ssid@.take(i as int), known@),
            decreases self.need_ssid@.len() - i,
        {
            proof {
                assert(self.need_ssid@.take(i + 1).drop_last() =~= self.need_ssid@.take(i as int));
            }
            match known.get(&self.need_ssid[i]) {
                Some(word) => {
                    sum = sum ^ *word;
                },
                None => {},
            }
            i = i + 1;
        }
        proof {
            assert(self.need_ssid@.take(self.need_ssid@.len() as int) =~= self.need_ssid@);
        }
        self.repair ^ sum
    }

    /// Rebuilds the one symbol that is missing, as of the arrival of the
    /// packet numbered `trigger`. An equation that lacks none, or more than
    /// one, rebuilds nothing.
    pub fn recover(&self, known: &HashMap<u64, u64>, trigger: u64) -> (r: Option<Packet>)
        ensures
            self@.action(known@.dom()) == DecoderAction::Recover ==> r.is_some() && r.unwrap()@
                == recovered_view(
                self@.lacking(known@.dom())[0],
                self@.solution(known@),
                trigger,
            ),
            self@.action(known@.dom()) != DecoderAction::Recover ==> r.is_none(),
    {
        let (count, ssid) = self.count_missing(known);
        if count == 1 {
            let word = self.solve(known);
            Some(
                Packet {
                    id: ssid,
                    fec: Some(FecMetadata::Source(FecSourceMetadata::Maelstrom(ssid))),
                    recovered: Some(trigger.saturating_sub(ssid)),
                    data: word_to_be(word),
                },
            )
        } else {
            None
        }
    }

    /// The smallest protected symbol.
    pub fn get_min_ssid(&self) -> (m: Option<MaelstromSSID>)
        ensures
            self@.need.len() == 0 <==> m.is_none(),
            m.is_some() ==> self@.need.contains(m.unwrap()) && forall|k: int|
                0 <= k < self@.need.len() ==> m.unwrap() <= self@.need[k],
    {
        smallest(&self.need_ssid)
    }
}


/// The lacking numbers of an equation are those it needs and are not known.
pub proof fn lemma_missing_members(need: Seq<u64>, known: Set<u64>)
    ensures
        forall|x: u64| #[trigger]
            missing(need, known).contains(x) <==> need.contains(x) && !known.contains(x),
    decreases need.len(),
{
    if need.len() > 0 {
        let front = need.drop_last();
        let last = need.last();
        lemma_missing_members(front, known);
        let rest = missing(front, known);
        assert forall|x: u64| #[trigger]
            missing(need, known).contains(x) <==> need.contains(x) && !known.contains(x) by {
            if need.contains(x) {
                let k = choose|k: int| 0 <= k < need.len() && need[k] == x;
                if k < front.len() {
                    assert(front[k] == x);
                }
            }
            if front.contains(x) {
                let k = choose|k: int| 0 <= k < front.len() && front[k] == x;
                assert(need[k] == x);
            }
            assert(need[need.len() - 1] == last);
            if known.contains(last) {
            } else {
                let now = rest.push(last);
                assert(now[rest.len() as int] == last);
                if rest.contains(x) {
                    let k = choose|k: int| 0 <= k < rest.len() && rest[k] == x;
                    assert(now[k] == x);
                }
                if now.contains(x) {
                    let k = choose|k: int| 0 <= k < now.len() && now[k] == x;
                    if k < rest.len() {
                        assert(rest[k] == x);
                    }
                }
            }
        }
    }
}

/// Learning a symbol never adds to what an equation lacks, and takes away
/// from it where the equation needed that symbol.
pub proof fn lemma_missing_shrinks(need: Seq<u64>, known: Set<u64>, ssid: u64)
    ensures
        missing(need, known.insert(ssid)).len() <= missing(need, known).len(),
        need.contains(ssid) && !known.contains(ssid) ==> missing(need, known.insert(ssid)).len()
            < missing(need, known).len(),
        !need.contains(ssid) ==> missing(need, known.insert(ssid)) == missing(need, known),
    decreases need.len(),
{
    if need.len() > 0 {
        let front = need.drop_last();
        lemma_missing_shrinks(front, known, ssid);
        assert(need[need.len() - 1] == need.last());
        if need.contains(ssid) {
            let k = choose|k: int| 0 <= k < need.len() && need[k] == ssid;
            if k < front.len() {
                assert(front[k] == ssid);
            }
        }
        if front.contains(ssid) {
            let k = choose|k: int| 0 <= k < front.len() && front[k] == ssid;
            assert(need[k] == ssid);
        }
    }
}

/// An equation is the first that can be solved: it lacks one symbol, and
/// no equation before it does.
pub open spec fn is_first_solvable(eqs: Seq<EquationView>, known: Set<u64>, i: int) -> bool {
    &&& 0 <= i < eqs.len()
    &&& eqs[i].action(known) == DecoderAction::Recover
    &&& forall|k: int| 0 <= k < i ==> (#[trigger] eqs[k]).action(known) != DecoderAction::Recover
}

/// How many symbols the equations lack, all told.
pub open spec fn pending(eqs: Seq<EquationView>, known: Set<u64>) -> nat
    decreases eqs.len(),
{
    if eqs.len() == 0 {
        0
    } else {
        pending(eqs.drop_last(), known) + eqs.last().lacking(known).len()
    }
}

/// Learning a symbol that some equation lacks leaves less pending.
pub proof fn lemma_pending_shrinks(eqs: Seq<EquationView>, known: Set<u64>, ssid: u64)
    ensures
        pending(eqs, known.insert(ssid)) <= pending(eqs, known),
        (exists|i: int| 0 <= i < eqs.len() && (#[trigger] eqs[i]).lacking(known).contains(ssid))
            ==> pending(eqs, known.insert(ssid)) < pending(eqs, known),
    decreases eqs.len(),
{
    if eqs.len() > 0 {
        let front = eqs.drop_last();
        let last = eqs.last();
        lemma_pending_shrinks(front, known, ssid);
        lemma_missing_shrinks(last.need, known, ssid);
        lemma_missing_members(last.need, known);
        if exists|i: int| 0 <= i < eqs.len() && (#[trigger] eqs[i]).lacking(known).contains(ssid) {
            let i = choose|i: int|
                0 <= i < eqs.len() && (#[trigger] eqs[i]).lacking(known).contains(ssid);
            if i < front.len() {
                assert(front[i] == eqs[i]);
            } else {
                assert(eqs[i] == last);
            }
        }
    }
}

/// What a cascade leaves: the symbols known at its end, and the packets it
/// rebuilt, in the order in which they were completed.
pub struct Solved {
    pub known: Map<u64, u64>,
    pub recovered: Seq<PacketView>,
}

/// Solves equations until none lacks exactly one symbol. Each round takes
/// the first equation that lacks one symbol, rebuilds that symbol and counts
/// it as known from then on, which may make further equations solvable.
/// Every rebuilt packet is dated from the packet numbered `trigger`.
pub open spec fn cascade(eqs: Seq<EquationView>, known: Map<u64, u64>, trigger: u64) -> Solved
    decreases pending(eqs, known.dom()),
{
    if exists|i: int| is_first_solvable(eqs, known.dom(), i) {
        let i = choose|i: int| is_first_solvable(eqs, known.dom(), i);
        let ssid = eqs[i].lacking(known.dom())[0];
        let word = eqs[i].solution(known);
        proof {
            assert(eqs[i].lacking(known.dom()).len() == 1);
            assert(eqs[i].lacking(known.dom()).contains(ssid));
            lemma_pending_shrinks(eqs, known.dom(), ssid);
            assert(known.insert(ssid, word).dom() =~= known.dom().insert(ssid));
        }
        let rest = cascade(eqs, known.insert(ssid, word), trigger);
        Solved {
            known: rest.known,
            recovered: seq![recovered_view(ssid, word, trigger)] + rest.recovered,
        }
    } else {
        Solved { known, recovered: Seq::empty() }
    }
}

/// The receiving side of the interleaved XOR code.
pub struct MaelstromDecoder {
    /// The equations that still lack more than one symbol, oldest first.
    equations: Vec<Equation>,
    /// The largest source symbol seen.
    max_ssid: u64,
    /// The payloads of the source symbols received or rebuilt, by number.
    pkts: HashMap<u64, u64>,
    /// How far behind the largest symbol a repair symbol may reach.
    capacity: usize,
}

/// A decoder as contracts see it.
pub struct MaelstromDecoderView {
    pub equations: Seq<EquationView>,
    pub known: Map<u64, u64>,
    pub max_ssid: u64,
    pub capacity: usize,
}

impl MaelstromDecoderView {
    /// No equation names a symbol twice.
    pub open spec fn each_once(self) -> bool {
        forall|k: int|
            0 <= k < self.equations.len() ==> (#[trigger] self.equations[k]).need.no_duplicates()
    }

    /// Every equation that is kept lacks more than one symbol: one that
    /// lacks none has gone, and one that lacks one has been solved. No
    /// equation names a symbol twice.
    pub open spec fn wf(self) -> bool {
        &&& forall|k: int|
            0 <= k < self.equations.len() ==> (#[trigger] self.equations[k]).action(
                self.known.dom(),
            ) == DecoderAction::Missing
        &&& self.each_once()
    }

    /// A decoder that has seen nothing.
    pub open spec fn fresh(capacity: usize) -> Self {
        MaelstromDecoderView {
            equations: Seq::empty(),
            known: Map::empty(),
            max_ssid: 0,
            capacity,
        }
    }

    /// The oldest source symbol that a repair symbol may still protect.
    pub open spec fn horizon(self) -> u64 {
        floor_sub(self.max_ssid, self.capacity as u64)
    }

    /// Whether a repair symbol for `list` reaches behind the horizon.
    pub open spec fn too_old(self, list: Seq<u64>) -> bool {
        exists|k: int| 0 <= k < list.len() && #[trigger] list[k] < self.horizon()
    }

    /// The decoder once the symbol `ssid` with payload `word` is known and
    /// the equations have been solved as far as they go.
    pub open spec fn learn(self, ssid: u64, word: u64, trigger: u64) -> Self {
        let solved = cascade(self.equations, self.known.insert(ssid, word), trigger);
        MaelstromDecoderView {
            equations: self.equations.filter(still_open(solved.known.dom())),
            known: solved.known,
            max_ssid: if ssid > self.max_ssid {
                ssid
            } else {
                self.max_ssid
            },
            capacity: self.capacity,
        }
    }

    /// The packets rebuilt when the symbol `ssid` with payload `word`
    /// becomes known.
    pub open spec fn rebuilt(self, ssid: u64, word: u64, trigger: u64) -> Seq<PacketView> {
        cascade(self.equations, self.known.insert(ssid, word), trigger).recovered
    }

    /// What the arrival of the source symbol `p` yields: the packets that it
    /// lets the decoder rebuild. A packet without this code's source
    /// metadata is refused.
    pub open spec fn source_outcome(self, p: PacketView) -> Result<Seq<PacketView>, Error> {
        match p.fec {
            Some(FecMetadataView::Source(FecSourceView::Maelstrom(ssid))) => Ok(
                self.rebuilt(ssid, be_word(p.payload), p.id),
            ),
            _ => Err(Error::FecWrongMetadata),
        }
    }

    /// The decoder after the arrival of the source symbol `p`.
    pub open spec fn after_source(self, p: PacketView) -> Self {
        match p.fec {
            Some(FecMetadataView::Source(FecSourceView::Maelstrom(ssid))) => self.learn(
                ssid,
                be_word(p.payload),
                p.id,
            ),
            _ => self,
        }
    }

    /// What the arrival of the repair symbol `p` yields. A packet without
    /// this code's repair metadata, or one that protects nothing, is refused
    /// as mistyped; one that reaches behind the horizon, as too old. An
    /// equation that lacks exactly one symbol yields that symbol, dated from
    /// the repair symbol, and then what that symbol's arrival lets the
    /// decoder rebuild, dated from the symbol. Any other yields nothing.
    pub open spec fn repair_outcome(self, p: PacketView) -> Result<Seq<PacketView>, Error> {
        match p.fec {
            Some(FecMetadataView::Repair(FecRepairView::Maelstrom(list))) => {
                let eq = EquationView::of(list, p.payload);
                let lacking = eq.lacking(self.known.dom());
                if list.len() == 0 {
                    Err(Error::FecWrongMetadata)
                } else if self.too_old(list) {
                    Err(Error::TooOldEquation)
                } else if lacking.len() == 1 {
                    let ssid = lacking[0];
                    let word = eq.solution(self.known);
                    Ok(seq![recovered_view(ssid, word, p.id)] + self.rebuilt(ssid, word, ssid))
                } else {
                    Ok(Seq::empty())
                }
            },
            _ => Err(Error::FecWrongMetadata),
        }
    }

    /// The decoder after the arrival of the repair symbol `p`: a refused
    /// symbol changes nothing, an equation that lacks nothing is dropped,
    /// one that lacks more than one symbol is kept, and one that lacks
    /// exactly one is solved and its symbol taken in.
    pub open spec fn after_repair(self, p: PacketView) -> Self {
        match p.fec {
            Some(FecMetadataView::Repair(FecRepairView::Maelstrom(list))) => {
                let eq = EquationView::of(list, p.payload);
                let lacking = eq.lacking(self.known.dom());
                if list.len() == 0 || self.too_old(list) || lacking.len() == 0 {
                    self
                } else if lacking.len() == 1 {
                    self.learn(lacking[0], eq.solution(self.known), lacking[0])
                } else {
                    MaelstromDecoderView { equations: self.equations.push(eq), ..self }
                }
            },
            _ => self,
        }
    }
}

/// Whether a call's result is the outcome that the contract names: the
/// same error, or packets with the same views.
pub open spec fn outcome_is(
    r: Result<Vec<Packet>, Error>,
    want: Result<Seq<PacketView>, Error>,
) -> bool {
    match (r, want) {
        (Ok(v), Ok(s)) => packet_views(v@) == s,
        (Err(e), Err(f)) => e == f,
        _ => false,
    }
}

impl View for MaelstromDecoder {
    type V = MaelstromDecoderView;

    closed spec fn view(&self) -> MaelstromDecoderView {
        MaelstromDecoderView {
            equations: equation_views(self.equations@),
            known: self.pkts@,
            max_ssid: self.max_ssid,
            capacity: self.capacity,
        }
    }
}

impl MaelstromDecoder {
    /// A decoder that has seen nothing and refuses repair symbols that reach
    /// more than `capacity` behind the largest source symbol seen.
    pub fn new(capacity: usize) -> (d: Self)
        ensures
            d@ == MaelstromDecoderView::fresh(capacity),
            d@.wf(),
    {
        let d = Self { equations: Vec::new(), max_ssid: 0, pkts: HashMap::new(), capacity };
        proof {
            assert(d@.equations =~= Seq::<EquationView>::empty());
            assert(d@.known =~= Map::<u64, u64>::empty());
        }
        d
    }

    /// Rebuilds the symbol of the first equation that lacks exactly one.
    fn first_recoverable(&self, trigger: u64) -> (r: Option<Packet>)
        ensures
            r.is_some() ==> exists|i: int| #[trigger]
                is_first_solvable(self@.equations, self@.known.dom(), i) && r.unwrap()@
                    == recovered_view(
                    self@.equations[i].lacking(self@.known.dom())[0],
                    self@.equations[i].solution(self@.known),
                    trigger,
                ),
            r.is_none() ==> forall|i: int| !is_first_solvable(self@.equations, self@.known.dom(), i),
    {
        let mut f: usize = 0;
        while f < self.equations.len()
            invariant
                0 <= f <= self.equations@.len(),
                forall|k: int|
                    0 <= k < f ==> (#[trigger] self@.equations[k]).action(self@.known.dom())
                        != DecoderAction::Recover,
            decreases self.equations@.len() - f,
        {
            assert(self@.equations[f as int] == self.equations@[f as int]@);
            match self.equations[f].recover(&self.pkts, trigger) {
                Some(rec) => {
                    assert(is_first_solvable(self@.equations, self@.known.dom(), f as int));
                    return Some(rec);
                },
                None => {},
            }
            f = f + 1;
        }
        None
    }

    /// Solves what can be solved and lets the solved equations go.
    fn propagate(&mut self, trigger: u64) -> (out: Vec<Packet>)
        requires
            old(self)@.each_once(),
        ensures
            packet_views(out@) == cascade(old(self)@.equations, old(self)@.known, trigger).recovered,
            final(self)@.known == cascade(old(self)@.equations, old(self)@.known, trigger).known,
            final(self)@.equations == old(self)@.equations.filter(
                still_open(final(self)@.known.dom()),
            ),
            final(self)@.max_ssid == old(self)@.max_ssid,
            final(self)@.capacity == old(self)@.capacity,
            final(self)@.wf(),
    {
        let ghost eqs = self@.equations;
        let ghost start = self@.known;
        let mut out: Vec<Packet> = Vec::new();
        let mut next = self.first_recoverable(trigger);
        assert(packet_views(out@) =~= Seq::<PacketView>::empty());
        while next.is_some()
            invariant
                self@.equations == eqs,
                self.max_ssid == old(self).max_ssid,
                self.capacity == old(self).capacity,
                cascade(eqs, start, trigger).known == cascade(eqs, self@.known, trigger).known,
                cascade(eqs, start, trigger).recovered == packet_views(out@) + cascade(
                    eqs,
                    self@.known,
                    trigger,
                ).recovered,
                next.is_some() ==> exists|i: int| #[trigger]
                    is_first_solvable(eqs, self@.known.dom(), i) && next.unwrap()@
                        == recovered_view(
                        eqs[i].lacking(self@.known.dom())[0],
                        eqs[i].solution(self@.known),
                        trigger,
                    ),
                next.is_none() ==> forall|i: int| !is_first_solvable(eqs, self@.known.dom(), i),
            decreases pending(eqs, self@.known.dom()),
        {
            let rec = next.unwrap();
            let ghost known = self@.known;
            let ghost done = packet_views(out@);
            let ghost i = choose|i: int| is_first_solvable(eqs, known.dom(), i);
            let ghost ssid = eqs[i].lacking(known.dom())[0];
            let ghost word = eqs[i].solution(known);
            proof {
                lemma_first_solvable_unique(eqs, known.dom());
                crate::word::lemma_word_of_bytes(word);
                assert(eqs[i].lacking(known.dom()).len() == 1);
                assert(eqs[i].lacking(known.dom()).contains(ssid));
                lemma_pending_shrinks(eqs, known.dom(), ssid);
                assert(known.insert(ssid, word).dom() =~= known.dom().insert(ssid));
            }
            let value = word_from_be(&rec.data);
            self.pkts.insert(rec.id, value);
            out.push(rec);
            proof {
                assert(self@.known == known.insert(ssid, word));
                assert(packet_views(out@) =~= done.push(rec@));
                let rest = cascade(eqs, known.insert(ssid, word), trigger);
                assert(cascade(eqs, known, trigger).recovered == seq![rec@] + rest.recovered);
                assert(done + (seq![rec@] + rest.recovered) =~= done.push(rec@) + rest.recovered);
            }
            next = self.first_recoverable(trigger);
        }
        proof {
            let known = self@.known;
            assert(!exists|i: int| is_first_solvable(eqs, known.dom(), i));
            assert(cascade(eqs, known, trigger).recovered =~= Seq::<PacketView>::empty());
            assert(packet_views(out@) + Seq::<PacketView>::empty() =~= packet_views(out@));
            lemma_none_solvable(eqs, known.dom());
        }

        // Let go of the equations that lack nothing any more.
        let ghost dom = self.pkts@.dom();
        let ghost p: int = 0;
        let mut i: usize = 0;
        assert(eqs.take(0).filter(still_open(dom)) =~= Seq::<EquationView>::empty()) by {
            reveal(Seq::filter);
        }
        assert(eqs.skip(0) =~= eqs);
        while i < self.equations.len()
            invariant
                0 <= p <= eqs.len(),
                0 <= i <= self.equations@.len(),
                self.pkts@.dom() == dom,
                self.pkts@ == cascade(eqs, start, trigger).known,
                self.max_ssid == old(self).max_ssid,
                self.capacity == old(self).capacity,
                i == eqs.take(p).filter(still_open(dom)).len(),
                self@.equations == eqs.take(p).filter(still_open(dom)) + eqs.skip(p),
                forall|k: int|
                    0 <= k < eqs.len() ==> (#[trigger] eqs[k]).action(dom) != DecoderAction::Recover,
            decreases eqs.len() - p,
        {
            let ghost kept = eqs.take(p).filter(still_open(dom));
            proof {
                assert(self@.equations.len() == kept.len() + eqs.skip(p).len());
                assert(p < eqs.len());
                assert(self@.equations[i as int] == eqs.skip(p)[0]);
                assert(self@.equations[i as int] == self.equations@[i as int]@);
                assert(eqs.take(p + 1) =~= eqs.take(p).push(eqs[p]));
                eqs.take(p).lemma_filter_push(eqs[p], still_open(dom));
            }
            let ghost before = self.equations@;
            match self.equations[i].action(&self.pkts) {
                DecoderAction::Redundant => {
                    self.equations.remove(i);
                    proof {
                        let views = equation_views(before);
                        assert(self.equations@ == before.remove(i as int));
                        assert(self@.equations =~= views.remove(i as int));
                        assert(views.remove(i as int) =~= kept + eqs.skip(p + 1));
                    }
                },
                _ => {
                    proof {
                        assert(self@.equations =~= kept.push(eqs[p]) + eqs.skip(p + 1));
                    }
                    i = i + 1;
                },
            }
            proof {
                p = p + 1;
            }
        }
        proof {
            assert(self@.equations.len() == i + eqs.skip(p).len());
            assert(p == eqs.len());
            assert(eqs.take(p) =~= eqs);
            assert(self@.equations =~= eqs.filter(still_open(dom)));
            assert forall|k: int| 0 <= k < self@.equations.len() implies (
            #[trigger] self@.equations[k]).action(dom) == DecoderAction::Missing
                && self@.equations[k].need.no_duplicates() by {
                let e = self@.equations[k];
                eqs.lemma_filter_contains_rev(still_open(dom), e);
                assert(eqs.filter(still_open(dom)).contains(e));
                assert(eqs.contains(e) && still_open(dom)(e));
                let w = choose|w: int| 0 <= w < eqs.len() && eqs[w] == e;
                assert(eqs[w].action(dom) != DecoderAction::Recover);
            }
        }
        out
    }

    /// Takes in a source symbol and returns the packets that its arrival
    /// lets the decoder rebuild, in the order in which they are completed.
    /// A packet that does not carry this code's source metadata is refused.
    pub fn recv_ss(&mut self, pkt: &Packet) -> (r: Result<Vec<Packet>, Error>)
        requires
            old(self)@.wf(),
            pkt@.sound(),
        ensures
            final(self)@.wf(),
            outcome_is(r, old(self)@.source_outcome(pkt@)),
            final(self)@ == old(self)@.after_source(pkt@),
    {
        match &pkt.fec {
            Some(FecMetadata::Source(FecSourceMetadata::Maelstrom(ssid))) => {
                let ssid = *ssid;
                self.pkts.insert(ssid, word_from_be(&pkt.data));
                if ssid > self.max_ssid {
                    self.max_ssid = ssid;
                }
                let out = self.propagate(pkt.id);
                Ok(out)
            },
            _ => Err(Error::FecWrongMetadata),
        }
    }

    /// Takes in a repair symbol. One that protects nothing is refused as
    /// mistyped. One that reaches behind the horizon is refused as too old.
    /// Otherwise the symbol gives an equation: where nothing is missing it
    /// is dropped, where more than one symbol is missing it is kept, and
    /// where exactly one is missing that symbol is rebuilt at once and then
    /// taken in as a source symbol would be.
    pub fn recv_rs(&mut self, pkt: &Packet) -> (r: Result<Vec<Packet>, Error>)
        requires
            old(self)@.wf(),
            pkt@.sound(),
        ensures
            final(self)@.wf(),
            outcome_is(r, old(self)@.repair_outcome(pkt@)),
            final(self)@ == old(self)@.after_repair(pkt@),
    {
        let list_is_old = match &pkt.fec {
            Some(FecMetadata::Repair(FecRepairMetadata::Maelstrom(info))) => {
                match smallest(&info.ssid) {
                    None => {
                        return Err(Error::FecWrongMetadata);
                    },
                    Some(least) => least < self.max_ssid.saturating_sub(self.capacity as u64),
                }
            },
            _ => {
                return Err(Error::FecWrongMetadata);
            },
        };
        if list_is_old {
            return Err(Error::TooOldEquation);
        }
        let new_equation = match Equation::new(pkt) {
            Ok(e) => e,
            Err(e) => {
                return Err(e);
            },
        };
        match new_equation.recover(&self.pkts, pkt.id) {
            Some(rec) => {
                let ghost ssid = new_equation@.lacking(self@.known.dom())[0];
                let ghost word = new_equation@.solution(self@.known);
                proof {
                    crate::word::lemma_word_of_bytes(word);
                }
                let mut out: Vec<Packet> = Vec::new();
                let ssid = rec.id;
                self.pkts.insert(ssid, word_from_be(&rec.data));
                if ssid > self.max_ssid {
                    self.max_ssid = ssid;
                }
                out.push(rec);
                let mut more = self.propagate(ssid);
                let ghost first = packet_views(out@);
                let ghost rest = packet_views(more@);
                out.append(&mut more);
                proof {
                    assert(first =~= seq![recovered_view(ssid, word, pkt@.id)]);
                    assert(packet_views(out@) =~= first + rest);
                }
                Ok(out)
            },
            None => {
                match new_equation.action(&self.pkts) {
                    DecoderAction::Missing => {
                        let ghost before = self@.equations;
                        self.equations.push(new_equation);
                        proof {
                            assert(self@.equations =~= before.push(new_equation@));
                        }
                    },
                    _ => {},
                }
                let out: Vec<Packet> = Vec::new();
                proof {
                    assert(packet_views(out@) =~= Seq::<PacketView>::empty());
                }
                Ok(out)
            },
        }
    }
}

/// Where an equation can be solved, a first one can; and it is the only
/// first one.
pub proof fn lemma_first_solvable_unique(eqs: Seq<EquationView>, known: Set<u64>)
    ensures
        forall|i: int, j: int|
            is_first_solvable(eqs, known, i) && is_first_solvable(eqs, known, j) ==> i == j,
{
}

/// Where no equation is first to be solved, none can be solved.
pub proof fn lemma_none_solvable(eqs: Seq<EquationView>, known: Set<u64>)
    requires
        forall|i: int| !is_first_solvable(eqs, known, i),
    ensures
        forall|k: int|
            0 <= k < eqs.len() ==> (#[trigger] eqs[k]).action(known) != DecoderAction::Recover,
{
    assert forall|k: int| 0 <= k < eqs.len() implies (#[trigger] eqs[k]).action(known)
        != DecoderAction::Recover by {
        lemma_none_solvable_upto(eqs, known, k + 1);
    }
}

proof fn lemma_none_solvable_upto(eqs: Seq<EquationView>, known: Set<u64>, n: int)
    requires
        forall|i: int| !is_first_solvable(eqs, known, i),
        0 <= n <= eqs.len(),
    ensures
        forall|k: int| 0 <= k < n ==> (#[trigger] eqs[k]).action(known) != DecoderAction::Recover,
    decreases n,
{
    if n > 0 {
        lemma_none_solvable_upto(eqs, known, n - 1);
        assert(!is_first_solvable(eqs, known, n - 1));
    }
}

} // verus!
