//! What holds of the interleaved XOR code, proved from its definitions.

use vstd::prelude::*;

use crate::fec::maelstrom::all_below;
use crate::fec::maelstrom::BinView;
use crate::fec::maelstrom::EquationView;
use crate::fec::maelstrom::listed;
use crate::fec::maelstrom::MaelstromDecoderView;
use crate::fec::maelstrom::MaelstromEncoderView;
use crate::fec::maelstrom::Symbol;
use crate::fec::maelstrom::cascade;
use crate::fec::maelstrom::distinct;
use crate::fec::maelstrom::is_first_solvable;
use crate::fec::maelstrom::layer_repairs;
use crate::fec::maelstrom::lemma_missing_members;
use crate::fec::maelstrom::lemma_pending_shrinks;
use crate::fec::maelstrom::pending;
use crate::fec::maelstrom::recovered_view;
use crate::fec::maelstrom::round_repairs;
use crate::fec::maelstrom::still_open;
use crate::fec::maelstrom::missing;
use crate::fec::maelstrom::xor_known;
use crate::fec::FecMetadataView;
use crate::fec::FecRepairView;
use crate::fec::FecSourceView;
use crate::word::{be_seq, be_word};
use crate::PacketView;

verus! {
/// Every repair symbol of a round is marked as one and has a payload of
/// one word.
pub proof fn lemma_repairs_sound(layers: Seq<Seq<BinView>>)
    ensures
        forall|k: int|
            0 <= k < round_repairs(layers).len() ==> {
                let r = #[trigger] round_repairs(layers)[k];
                r.is_repair() && r.is_word() && r.sound()
            },
    decreases layers.len(),
{
    if layers.len() > 0 {
        lemma_repairs_sound(layers.drop_last());
        lemma_layer_repairs_sound(layers.last());
    }
}

proof fn lemma_layer_repairs_sound(bins: Seq<BinView>)
    ensures
        forall|k: int|
            0 <= k < layer_repairs(bins).len() ==> {
                let r = #[trigger] layer_repairs(bins)[k];
                r.is_repair() && r.is_word() && r.sound()
            },
    decreases bins.len(),
{
    if bins.len() > 0 {
        lemma_layer_repairs_sound(bins.drop_last());
    }
}

/// What a cascade rebuilds is new. Every rebuilt packet has a number that
/// was not known when the cascade began and that some equation protects; no
/// number is rebuilt twice; each packet is marked as the source symbol of
/// its number, has a payload of one word, and is dated from the trigger. At
/// the end what was known is still known, the rebuilt numbers are known,
/// and no equation is left that lacks exactly one symbol.
pub proof fn lemma_cascade(eqs: Seq<EquationView>, known: Map<u64, u64>, trigger: u64)
    ensures
        ({
            let s = cascade(eqs, known, trigger);
            &&& known.dom().subset_of(s.known.dom())
            &&& forall|k: int|
                0 <= k < s.recovered.len() ==> {
                    let x = #[trigger] s.recovered[k];
                    &&& !known.dom().contains(x.id)
                    &&& s.known.dom().contains(x.id)
                    &&& x.recovered_from == Some(crate::fec::floor_sub(trigger, x.id))
                    &&& x.fec == Some(FecMetadataView::Source(FecSourceView::Maelstrom(x.id)))
                    &&& x.is_word()
                    &&& exists|i: int| 0 <= i < eqs.len() && (#[trigger] eqs[i]).need.contains(x.id)
                }
            &&& forall|j: int, k: int|
                0 <= j < k < s.recovered.len() ==> (#[trigger] s.recovered[j]).id != (
                #[trigger] s.recovered[k]).id
            &&& forall|i: int| !is_first_solvable(eqs, s.known.dom(), i)
        }),
    decreases pending(eqs, known.dom()),
{
    if exists|i: int| is_first_solvable(eqs, known.dom(), i) {
        let i = choose|i: int| is_first_solvable(eqs, known.dom(), i);
        let ssid = eqs[i].lacking(known.dom())[0];
        let word = eqs[i].solution(known);
        let next = known.insert(ssid, word);
        assert(eqs[i].lacking(known.dom()).len() == 1);
        assert(eqs[i].lacking(known.dom()).contains(ssid));
        lemma_missing_members(eqs[i].need, known.dom());
        lemma_pending_shrinks(eqs, known.dom(), ssid);
        assert(next.dom() =~= known.dom().insert(ssid));
        lemma_cascade(eqs, next, trigger);
        crate::word::lemma_word_of_bytes(word);
        let rest = cascade(eqs, next, trigger);
        let s = cascade(eqs, known, trigger);
        let head = recovered_view(ssid, word, trigger);
        assert(s.recovered == seq![head] + rest.recovered);
        assert forall|k: int| 0 <= k < s.recovered.len() implies {
            let x = #[trigger] s.recovered[k];
            &&& !known.dom().contains(x.id)
            &&& s.known.dom().contains(x.id)
            &&& x.recovered_from == Some(crate::fec::floor_sub(trigger, x.id))
            &&& x.fec == Some(FecMetadataView::Source(FecSourceView::Maelstrom(x.id)))
            &&& x.is_word()
            &&& exists|i: int| 0 <= i < eqs.len() && (#[trigger] eqs[i]).need.contains(x.id)
        } by {
            if k == 0 {
                assert(s.recovered[0] == head);
                assert(eqs[i].need.contains(ssid));
            } else {
                assert(s.recovered[k] == rest.recovered[k - 1]);
            }
        }
        assert forall|j: int, k: int| 0 <= j < k < s.recovered.len() implies (
        #[trigger] s.recovered[j]).id != (#[trigger] s.recovered[k]).id by {
            assert(s.recovered[k] == rest.recovered[k - 1]);
            if j == 0 {
                assert(s.recovered[0] == head);
                assert(!next.dom().contains(rest.recovered[k - 1].id));
            } else {
                assert(s.recovered[j] == rest.recovered[j - 1]);
            }
        }
    }
}

/// The numbers of the packets that a source symbol's arrival lets the
/// decoder rebuild were not known before, differ from the symbol's own
/// number and from one another, and lie in what some kept equation
/// protects.
pub proof fn lemma_rebuilt_are_new(d: MaelstromDecoderView, ssid: u64, word: u64, trigger: u64)
    ensures
        forall|k: int|
            0 <= k < d.rebuilt(ssid, word, trigger).len() ==> {
                let x = #[trigger] d.rebuilt(ssid, word, trigger)[k];
                &&& x.id != ssid
                &&& !d.known.dom().contains(x.id)
                &&& x.recovered_from == Some(crate::fec::floor_sub(trigger, x.id))
                &&& exists|i: int|
                    0 <= i < d.equations.len() && (#[trigger] d.equations[i]).need.contains(x.id)
            },
        forall|j: int, k: int|
            0 <= j < k < d.rebuilt(ssid, word, trigger).len() ==> (#[trigger] d.rebuilt(
                ssid,
                word,
                trigger,
            )[j]).id != (#[trigger] d.rebuilt(ssid, word, trigger)[k]).id,
{
    lemma_cascade(d.equations, d.known.insert(ssid, word), trigger);
}

/// A packet rebuilt on the arrival of a source symbol lies no further
/// behind that symbol than the largest symbol seen: its number and its
/// distance add up to at most that symbol's number. This is said of a source
/// symbol whose packet is numbered as the symbol is, and of rebuilt packets
/// that are not numbered above the largest symbol seen.
pub proof fn lemma_recovery_distance(d: MaelstromDecoderView, p: PacketView, k: int)
    requires
        p.fec == Some(FecMetadataView::Source(FecSourceView::Maelstrom(p.id))),
        d.source_outcome(p) is Ok,
        0 <= k < d.source_outcome(p).unwrap().len(),
        d.source_outcome(p).unwrap()[k].id <= d.after_source(p).max_ssid,
    ensures
        d.source_outcome(p).unwrap()[k].recovered_from is Some,
        d.source_outcome(p).unwrap()[k].id + d.source_outcome(p).unwrap()[k].recovered_from.unwrap()
            <= d.after_source(p).max_ssid,
{
    lemma_rebuilt_are_new(d, p.id, be_word(p.payload), p.id);
}

proof fn lemma_xor_zero(x: u64)
    ensures
        x ^ 0 == x,
        x ^ x == 0,
{
    assert(x ^ 0 == x) by (bit_vector);
    assert(x ^ x == 0) by (bit_vector);
}

proof fn lemma_xor_swap(a: u64, b: u64, c: u64)
    ensures
        (a ^ b) ^ c == (a ^ c) ^ b,
{
    assert((a ^ b) ^ c == (a ^ c) ^ b) by (bit_vector);
}

/// What a list holds once its repetitions are removed, the list held.
pub proof fn lemma_distinct_members(list: Seq<u64>)
    ensures
        forall|x: u64| distinct(list).contains(x) ==> list.contains(x),
    decreases list.len(),
{
    if list.len() > 0 {
        let front = list.drop_last();
        lemma_distinct_members(front);
        let rest = distinct(front);
        assert forall|x: u64| distinct(list).contains(x) implies list.contains(x) by {
            assert(list[list.len() - 1] == list.last());
            if rest.contains(x) {
                assert(front.contains(x));
                let k = choose|k: int| 0 <= k < front.len() && front[k] == x;
                assert(list[k] == x);
            } else {
                let now = distinct(list);
                let k = choose|k: int| 0 <= k < now.len() && now[k] == x;
                if k < rest.len() {
                    assert(rest[k] == x);
                }
            }
        }
    }
}

impl MaelstromDecoderView {
    /// Every equation protects only symbols numbered below `bound`.
    pub open spec fn below(self, bound: nat) -> bool {
        forall|k: int|
            0 <= k < self.equations.len() ==> all_below((#[trigger] self.equations[k]).need, bound)
    }
}

/// What the decoder rebuilds is numbered within what its equations
/// protect. Where every equation protects only symbols below a bound, so
/// does every equation afterwards, and every rebuilt packet is numbered
/// below the bound and is no repair symbol.
pub proof fn lemma_learn_below(
    d: MaelstromDecoderView,
    ssid: u64,
    word: u64,
    trigger: u64,
    bound: nat,
)
    requires
        d.below(bound),
    ensures
        d.learn(ssid, word, trigger).below(bound),
        forall|k: int|
            0 <= k < d.rebuilt(ssid, word, trigger).len() ==> {
                let x = #[trigger] d.rebuilt(ssid, word, trigger)[k];
                x.id < bound && !x.is_repair()
            },
{
    lemma_cascade(d.equations, d.known.insert(ssid, word), trigger);
    let after = d.learn(ssid, word, trigger);
    let solved = cascade(d.equations, d.known.insert(ssid, word), trigger);
    assert forall|k: int| 0 <= k < after.equations.len() implies all_below(
        (#[trigger] after.equations[k]).need,
        bound,
    ) by {
        let e = after.equations[k];
        d.equations.lemma_filter_contains_rev(still_open(solved.known.dom()), e);
        assert(d.equations.filter(still_open(solved.known.dom())).contains(e));
        let w = choose|w: int| 0 <= w < d.equations.len() && d.equations[w] == e;
        assert(all_below(d.equations[w].need, bound));
    }
    assert forall|k: int| 0 <= k < d.rebuilt(ssid, word, trigger).len() implies {
        let x = #[trigger] d.rebuilt(ssid, word, trigger)[k];
        x.id < bound && !x.is_repair()
    } by {
        let x = d.rebuilt(ssid, word, trigger)[k];
        let i = choose|i: int|
            0 <= i < d.equations.len() && (#[trigger] d.equations[i]).need.contains(x.id);
        assert(all_below(d.equations[i].need, bound));
        let w = choose|w: int| 0 <= w < d.equations[i].need.len() && d.equations[i].need[w] == x.id;
        assert(d.equations[i].need[w] < bound);
    }
}

/// A source symbol leaves the decoder within the bound of its equations.
pub proof fn lemma_source_below(d: MaelstromDecoderView, p: PacketView, bound: nat)
    requires
        d.below(bound),
    ensures
        d.after_source(p).below(bound),
        d.source_outcome(p) matches Ok(rebuilt) ==> forall|k: int|
            0 <= k < rebuilt.len() ==> (#[trigger] rebuilt[k]).id < bound && !rebuilt[k].is_repair(),
{
    match p.fec {
        Some(FecMetadataView::Source(FecSourceView::Maelstrom(ssid))) => {
            lemma_learn_below(d, ssid, be_word(p.payload), p.id, bound);
        },
        _ => {},
    }
}

/// A repair symbol that lists only numbers below a bound leaves the
/// decoder within that bound.
pub proof fn lemma_repair_below(d: MaelstromDecoderView, p: PacketView, bound: nat)
    requires
        d.below(bound),
        p.below(bound),
        p.is_repair(),
    ensures
        d.after_repair(p).below(bound),
        d.repair_outcome(p) matches Ok(rebuilt) ==> forall|k: int|
            0 <= k < rebuilt.len() ==> (#[trigger] rebuilt[k]).id < bound && !rebuilt[k].is_repair(),
{
    match p.fec {
        Some(FecMetadataView::Repair(FecRepairView::Maelstrom(list))) => {
            let eq = EquationView::of(list, p.payload);
            let lacking = eq.lacking(d.known.dom());
            lemma_distinct_members(list);
            assert(all_below(eq.need, bound)) by {
                assert forall|a: int| 0 <= a < eq.need.len() implies (#[trigger] eq.need[a])
                    < bound by {
                    assert(distinct(list)[a] == eq.need[a]);
                    assert(distinct(list).contains(eq.need[a]));
                    assert(list.contains(eq.need[a]));
                    let w = choose|w: int| 0 <= w < list.len() && list[w] == eq.need[a];
                    assert(list[w] < bound);
                }
            }
            if list.len() == 0 || d.too_old(list) || lacking.len() == 0 {
            } else if lacking.len() == 1 {
                let ssid = lacking[0];
                let word = eq.solution(d.known);
                lemma_missing_members(eq.need, d.known.dom());
                assert(lacking.contains(ssid));
                assert(eq.need.contains(ssid));
                let w = choose|w: int| 0 <= w < eq.need.len() && eq.need[w] == ssid;
                assert(eq.need[w] < bound);
                lemma_learn_below(d, ssid, word, ssid, bound);
                let rebuilt = d.repair_outcome(p).unwrap();
                let more = d.rebuilt(ssid, word, ssid);
                assert(rebuilt == seq![recovered_view(ssid, word, p.id)] + more);
                assert forall|k: int| 0 <= k < rebuilt.len() implies (#[trigger] rebuilt[k]).id
                    < bound && !rebuilt[k].is_repair() by {
                    if k > 0 {
                        assert(rebuilt[k] == more[k - 1]);
                    }
                }
            } else {
                let after = d.after_repair(p);
                assert forall|k: int| 0 <= k < after.equations.len() implies all_below(
                    (#[trigger] after.equations[k]).need,
                    bound,
                ) by {
                    if k < d.equations.len() {
                        assert(after.equations[k] == d.equations[k]);
                    }
                }
            }
        },
        _ => {},
    }
}

/// Every repair symbol of a round is marked as a repair symbol of this
/// code.
pub proof fn lemma_repairs_in_step(layers: Seq<Seq<BinView>>)
    ensures
        forall|k: int|
            0 <= k < round_repairs(layers).len() ==> {
                let r = #[trigger] round_repairs(layers)[k];
                r.in_step()
            },
    decreases layers.len(),
{
    if layers.len() > 0 {
        lemma_repairs_in_step(layers.drop_last());
        lemma_layer_repairs_in_step(layers.last());
    }
}

proof fn lemma_layer_repairs_in_step(bins: Seq<BinView>)
    ensures
        forall|k: int|
            0 <= k < layer_repairs(bins).len() ==> {
                let r = #[trigger] layer_repairs(bins)[k];
                r.in_step()
            },
    decreases bins.len(),
{
    if bins.len() > 0 {
        lemma_layer_repairs_in_step(bins.drop_last());
    }
}

/// What the decoder rebuilds when it learns a symbol has not come before.
/// Where the decoder knows the number of every packet of `sink`, and no
/// rebuilt packet of `sink` has the number of one before it, the same holds
/// of `sink` followed by what the decoder rebuilds when it learns the symbol
/// `ssid`, and by anything numbered `ssid` after that.
pub proof fn lemma_learn_once(
    d: MaelstromDecoderView,
    ssid: u64,
    word: u64,
    trigger: u64,
    sink: Seq<PacketView>,
)
    requires
        forall|j: int| 0 <= j < sink.len() ==> d.known.dom().contains((#[trigger] sink[j]).id),
        crate::rebuilt_once(sink),
    ensures
        forall|j: int|
            0 <= j < sink.len() ==> d.learn(ssid, word, trigger).known.dom().contains(
                (#[trigger] sink[j]).id,
            ),
        d.learn(ssid, word, trigger).known.dom().contains(ssid),
        forall|k: int|
            0 <= k < d.rebuilt(ssid, word, trigger).len() ==> {
                let x = #[trigger] d.rebuilt(ssid, word, trigger)[k];
                &&& d.learn(ssid, word, trigger).known.dom().contains(x.id)
                &&& x.id != ssid
                &&& !d.known.dom().contains(x.id)
            },
        crate::rebuilt_once(sink + d.rebuilt(ssid, word, trigger)),
{
    let start = d.known.insert(ssid, word);
    lemma_cascade(d.equations, start, trigger);
    let rebuilt = d.rebuilt(ssid, word, trigger);
    let all = sink + rebuilt;
    assert forall|j: int, k: int|
        0 <= j < k < all.len() && (#[trigger] all[k]).recovered_from.is_some() implies (
    #[trigger] all[j]).id != all[k].id by {
        if k < sink.len() {
            assert(all[j] == sink[j] && all[k] == sink[k]);
        } else {
            let x = rebuilt[k - sink.len()];
            assert(all[k] == x);
            assert(!start.dom().contains(x.id));
            if j < sink.len() {
                assert(all[j] == sink[j]);
                assert(d.known.dom().contains(sink[j].id));
            } else {
                assert(all[j] == rebuilt[j - sink.len()]);
            }
        }
    }
}

/// The sum of the known symbols and the sum of the missing ones make the
/// sum of all. Where what is known agrees with `truth`, which has a word
/// for every symbol of `need`, the exclusive or of the true words of `need`
/// is that of the known words with that of the true words of the symbols
/// that are missing.
pub proof fn lemma_known_and_missing(need: Seq<u64>, known: Map<u64, u64>, truth: Map<u64, u64>)
    requires
        forall|k: int| 0 <= k < need.len() ==> truth.dom().contains(#[trigger] need[k]),
        forall|s: u64| #[trigger]
            known.dom().contains(s) && truth.dom().contains(s) ==> known[s] == truth[s],
    ensures
        xor_known(need, truth) == xor_known(need, known) ^ xor_known(
            missing(need, known.dom()),
            truth,
        ),
    decreases need.len(),
{
    if need.len() == 0 {
        lemma_xor_zero(0);
    } else {
        let front = need.drop_last();
        let last = need.last();
        assert forall|k: int| 0 <= k < front.len() implies truth.dom().contains(
            #[trigger] front[k],
        ) by {
            assert(front[k] == need[k]);
        }
        lemma_known_and_missing(front, known, truth);
        assert(need[need.len() - 1] == last);
        let all = xor_known(front, truth);
        let have = xor_known(front, known);
        let lack = xor_known(missing(front, known.dom()), truth);
        let word = truth[last];
        if known.dom().contains(last) {
            lemma_xor_swap(have, lack, word);
        } else {
            let gone = missing(front, known.dom());
            assert(gone.push(last).drop_last() =~= gone);
            assert(gone.push(last).last() == last);
            lemma_xor_assoc(have, lack, word);
        }
    }
}

proof fn lemma_xor_assoc(a: u64, b: u64, c: u64)
    ensures
        (a ^ b) ^ c == a ^ (b ^ c),
{
    assert((a ^ b) ^ c == a ^ (b ^ c)) by (bit_vector);
}

/// Solving an equation rebuilds the missing payload. Where the repair
/// symbol's payload is the exclusive or of the true payloads of all the
/// symbols it protects, and what is known of them is true, the solution of
/// an equation that lacks the one symbol `ssid` is the true payload of that
/// symbol.
pub proof fn lemma_solution_is_true(
    eq: EquationView,
    known: Map<u64, u64>,
    truth: Map<u64, u64>,
    ssid: u64,
)
    requires
        forall|k: int| 0 <= k < eq.need.len() ==> truth.dom().contains(#[trigger] eq.need[k]),
        forall|s: u64| #[trigger]
            known.dom().contains(s) && truth.dom().contains(s) ==> known[s] == truth[s],
        eq.repair == xor_known(eq.need, truth),
        eq.lacking(known.dom()) == seq![ssid],
    ensures
        eq.solution(known) == truth[ssid],
{
    lemma_known_and_missing(eq.need, known, truth);
    lemma_missing_members(eq.need, known.dom());
    let one = seq![ssid];
    assert(one.contains(ssid)) by {
        assert(one[0] == ssid);
    }
    assert(truth.dom().contains(ssid)) by {
        assert(eq.need.contains(ssid));
        let k = choose|k: int| 0 <= k < eq.need.len() && eq.need[k] == ssid;
        assert(truth.dom().contains(eq.need[k]));
    }
    assert(xor_known(one, truth) == truth[ssid]) by {
        assert(one.drop_last() =~= Seq::<u64>::empty());
        assert(one.last() == ssid);
        assert(xor_known(Seq::<u64>::empty(), truth) == 0);
        let word = truth[ssid];
        assert(0u64 ^ word == word) by (bit_vector);
    }
    let have = xor_known(eq.need, known);
    let word = truth[ssid];
    assert((have ^ word) ^ have == word) by (bit_vector);
}

/// A burst no longer than a layer is wide costs each bin at most one
/// symbol: two of fewer than `interleave` consecutive numbers are filed in
/// different bins of a layer with `interleave` bins.
pub proof fn lemma_burst_is_scattered(interleave: nat, first: nat, i: nat, j: nat)
    requires
        i < j < interleave,
    ensures
        (first + i) % interleave != (first + j) % interleave,
{
    let a = (first + i) as int;
    let b = (first + j) as int;
    let n = interleave as int;
    if a % n == b % n {
        vstd::arithmetic::div_mod::lemma_fundamental_div_mod(a, n);
        vstd::arithmetic::div_mod::lemma_fundamental_div_mod(b, n);
        let q = b / n - a / n;
        assert(b - a == n * q) by (nonlinear_arith)
            requires
                a == n * (a / n) + a % n,
                b == n * (b / n) + b % n,
                a % n == b % n,
                q == b / n - a / n,
        ;
        assert(false) by (nonlinear_arith)
            requires
                0 < b - a < n,
                b - a == n * q,
        ;
    }
}

/// The decoder forgets no symbol: what it knew before a packet arrived, it
/// knows afterwards, with the same payload unless the packet itself brought
/// another for its own number.
pub proof fn lemma_known_stays(d: MaelstromDecoderView, p: PacketView, ssid: u64)
    requires
        d.known.dom().contains(ssid),
    ensures
        d.after_source(p).known.dom().contains(ssid),
        d.after_repair(p).known.dom().contains(ssid),
        d.after_repair(p).known[ssid] == d.known[ssid],
        p.fec != Some(FecMetadataView::Source(FecSourceView::Maelstrom(ssid))) ==> d.after_source(
            p,
        ).known[ssid] == d.known[ssid],
{
    match p.fec {
        Some(FecMetadataView::Source(FecSourceView::Maelstrom(m))) => {
            let start = d.known.insert(m, be_word(p.payload));
            lemma_cascade_keeps(d.equations, start, p.id, ssid);
        },
        Some(FecMetadataView::Repair(FecRepairView::Maelstrom(list))) => {
            let eq = EquationView::of(list, p.payload);
            let lacking = eq.lacking(d.known.dom());
            if list.len() > 0 && !d.too_old(list) && lacking.len() == 1 {
                lemma_missing_members(eq.need, d.known.dom());
                assert(lacking.contains(lacking[0]));
                let start = d.known.insert(lacking[0], eq.solution(d.known));
                lemma_cascade_keeps(d.equations, start, lacking[0], ssid);
            }
        },
        _ => {},
    }
}

proof fn lemma_cascade_keeps(
    eqs: Seq<EquationView>,
    known: Map<u64, u64>,
    trigger: u64,
    ssid: u64,
)
    requires
        known.dom().contains(ssid),
    ensures
        cascade(eqs, known, trigger).known.dom().contains(ssid),
        cascade(eqs, known, trigger).known[ssid] == known[ssid],
    decreases pending(eqs, known.dom()),
{
    if exists|i: int| is_first_solvable(eqs, known.dom(), i) {
        let i = choose|i: int| is_first_solvable(eqs, known.dom(), i);
        let next = eqs[i].lacking(known.dom())[0];
        let word = eqs[i].solution(known);
        assert(eqs[i].lacking(known.dom()).len() == 1);
        assert(eqs[i].lacking(known.dom()).contains(next));
        lemma_missing_members(eqs[i].need, known.dom());
        lemma_pending_shrinks(eqs, known.dom(), next);
        assert(known.insert(next, word).dom() =~= known.dom().insert(next));
        lemma_cascade_keeps(eqs, known.insert(next, word), trigger, ssid);
    }
}


/// A list that names nothing twice is the same without its repetitions.
pub proof fn lemma_distinct_same(list: Seq<u64>)
    requires
        list.no_duplicates(),
    ensures
        distinct(list) == list,
    decreases list.len(),
{
    if list.len() > 0 {
        let front = list.drop_last();
        assert(front.no_duplicates()) by {
            assert forall|a: int, b: int| 0 <= a < front.len() && 0 <= b < front.len() && a
                != b implies front[a] != front[b] by {
                assert(front[a] == list[a] && front[b] == list[b]);
            }
        }
        lemma_distinct_same(front);
        if front.contains(list.last()) {
            let k = choose|k: int| 0 <= k < front.len() && front[k] == list.last();
            assert(list[k] == list[list.len() - 1]);
        }
        assert(front.push(list.last()) =~= list);
    } else {
        assert(distinct(list) =~= list);
    }
}

/// What the decoder rebuilds from a repair symbol of the encoder is what
/// was sent. Where the decoder knows no payload but as it was sent, and an
/// equation from a repair symbol of the encoder lacks exactly one symbol,
/// the decoder rebuilds that symbol first, with the payload that the
/// encoder protected under that number.
pub proof fn lemma_rebuilt_is_sent(e: MaelstromEncoderView, k: int, d: MaelstromDecoderView)
    requires
        e.wf(),
        0 <= k < e.repairs().len(),
        forall|s: u64| #[trigger]
            d.known.dom().contains(s) && e.sent.dom().contains(s) ==> d.known[s] == e.sent[s],
        !d.too_old(listed(e.repairs()[k])),
        EquationView::of(listed(e.repairs()[k]), e.repairs()[k].payload).lacking(
            d.known.dom(),
        ).len() == 1,
    ensures
        ({
            let r = e.repairs()[k];
            let ssid = EquationView::of(listed(r), r.payload).lacking(d.known.dom())[0];
            &&& d.repair_outcome(r) is Ok
            &&& d.repair_outcome(r).unwrap().len() > 0
            &&& d.repair_outcome(r).unwrap()[0].id == ssid
            &&& e.sent.dom().contains(ssid)
            &&& d.repair_outcome(r).unwrap()[0].payload == be_seq(e.sent[ssid])
        }),
{
    crate::fec::maelstrom::lemma_round_cancels(e);
    let r = e.repairs()[k];
    let list = listed(r);
    crate::fec::maelstrom::lemma_rising_once(list);
    lemma_distinct_same(list);
    let eq = EquationView::of(list, r.payload);
    let lacking = eq.lacking(d.known.dom());
    let ssid = lacking[0];
    crate::word::lemma_word_of_bytes(xor_known(list, e.sent));
    assert(lacking =~= seq![ssid]);
    lemma_solution_is_true(eq, d.known, e.sent, ssid);
    lemma_missing_members(eq.need, d.known.dom());
    assert(lacking.contains(ssid));
    assert(list.len() > 0) by {
        assert(eq.need.contains(ssid));
    }
    assert(e.sent.dom().contains(ssid)) by {
        let w = choose|w: int| 0 <= w < list.len() && list[w] == ssid;
        assert(e.sent.dom().contains(list[w]));
    }
    let word = eq.solution(d.known);
    let out = d.repair_outcome(r).unwrap();
    assert(out == seq![recovered_view(ssid, word, r.id)] + d.rebuilt(ssid, word, ssid));
}


/// Whether `r` is the repair symbol that bin `j` of layer `i` emits in the
/// round that is due.
pub open spec fn emitted_by(e: MaelstromEncoderView, r: PacketView, i: int, j: int) -> bool {
    &&& 0 <= i < e.layers.len()
    &&& 0 <= j < e.layers[i].len()
    &&& e.layers[i][j].full()
    &&& r == e.layers[i][j].repair()
}

/// Whether `r` is the repair symbol of some full bin.
pub open spec fn from_a_bin(e: MaelstromEncoderView, r: PacketView) -> bool {
    exists|i: int, j: int| emitted_by(e, r, i, j)
}

/// Whether `r` is the repair symbol of some full bin and lists symbols of
/// that bin's residue class only, modulo the number of bins of its layer.
pub open spec fn in_its_class(e: MaelstromEncoderView, r: PacketView) -> bool {
    exists|i: int, j: int| #[trigger]
        emitted_by(e, r, i, j) && crate::fec::maelstrom::in_class(listed(r), e.layers[i].len(), j)
}

/// Every repair symbol of a round is that of a full bin.
pub proof fn lemma_repairs_from_bins(e: MaelstromEncoderView)
    ensures
        forall|k: int|
            0 <= k < e.repairs().len() ==> {
                let r = #[trigger] e.repairs()[k];
                from_a_bin(e, r)
            },
{
    lemma_round_from_bins(e, e.layers.len() as int);
    assert(e.layers.take(e.layers.len() as int) =~= e.layers);
}

proof fn lemma_round_from_bins(e: MaelstromEncoderView, n: int)
    requires
        0 <= n <= e.layers.len(),
    ensures
        forall|k: int|
            0 <= k < round_repairs(e.layers.take(n)).len() ==> {
                let r = #[trigger] round_repairs(e.layers.take(n))[k];
                from_a_bin(e, r)
            },
    decreases n,
{
    if n > 0 {
        lemma_round_from_bins(e, n - 1);
        assert(e.layers.take(n).drop_last() =~= e.layers.take(n - 1));
        assert(e.layers.take(n).last() == e.layers[n - 1]);
        lemma_layer_from_bins(e, n - 1, e.layers[n - 1].len() as int);
        assert(e.layers[n - 1].take(e.layers[n - 1].len() as int) =~= e.layers[n - 1]);
        let before = round_repairs(e.layers.take(n - 1));
        let added = layer_repairs(e.layers[n - 1]);
        let now = round_repairs(e.layers.take(n));
        assert(now == before + added);
        assert forall|k: int| 0 <= k < now.len() implies {
            let r = #[trigger] now[k];
            from_a_bin(e, r)
        } by {
            if k < before.len() {
                assert(now[k] == before[k]);
            } else {
                assert(now[k] == added[k - before.len()]);
            }
        }
    }
}

proof fn lemma_layer_from_bins(e: MaelstromEncoderView, i: int, m: int)
    requires
        0 <= i < e.layers.len(),
        0 <= m <= e.layers[i].len(),
    ensures
        forall|k: int|
            0 <= k < layer_repairs(e.layers[i].take(m)).len() ==> {
                let r = #[trigger] layer_repairs(e.layers[i].take(m))[k];
                from_a_bin(e, r)
            },
    decreases m,
{
    if m > 0 {
        lemma_layer_from_bins(e, i, m - 1);
        let bins = e.layers[i].take(m);
        assert(bins.drop_last() =~= e.layers[i].take(m - 1));
        assert(bins.last() == e.layers[i][m - 1]);
        let before = layer_repairs(bins.drop_last());
        let now = layer_repairs(bins);
        assert forall|k: int| 0 <= k < now.len() implies {
            let r = #[trigger] now[k];
            from_a_bin(e, r)
        } by {
            if k < before.len() {
                assert(now[k] == before[k]);
            } else {
                assert(emitted_by(e, now[k], i, m - 1));
            }
        }
    }
}

/// Protecting a symbol in an encoder whose rounds have been run fills no
/// bin beyond a window's worth.
pub proof fn lemma_protect_fills(e: MaelstromEncoderView, s: crate::fec::maelstrom::Symbol)
    requires
        e.shaped(),
        e.drained(),
    ensures
        e.protect(s).filled(),
{
    let after = e.protect(s);
    assert forall|i: int, j: int|
        0 <= i < after.layers.len() && 0 <= j < after.layers[i].len() implies (
    #[trigger] after.layers[i][j]).symbols.len() <= after.window by {
        assert(!e.layers[i][j].full());
        assert(e.layers[i][j].window == e.window);
    }
}

/// A round of repairs leaves no bin full, where a window holds a symbol at
/// least.
pub proof fn lemma_round_drains(e: MaelstromEncoderView)
    requires
        e.shaped(),
        e.window > 0,
    ensures
        e.after_round().drained(),
{
    let after = e.after_round();
    assert forall|i: int, j: int|
        0 <= i < after.layers.len() && 0 <= j < after.layers[i].len() implies !(
    #[trigger] after.layers[i][j]).full() by {
        assert(e.layers[i][j].window == e.window);
    }
}

/// What a round of repairs lists. Where no bin holds more than a window's
/// worth, as is so when every round that was due has been run, each repair
/// symbol of the round is that of a bin, lists exactly a window's worth of
/// symbols, and these lie in the residue class of that bin modulo the
/// number of bins of its layer.
pub proof fn lemma_round_lists(e: MaelstromEncoderView)
    requires
        e.wf(),
        e.filled(),
    ensures
        forall|k: int|
            0 <= k < e.repairs().len() ==> {
                let r = #[trigger] e.repairs()[k];
                listed(r).len() == e.window && in_its_class(e, r)
            },
{
    lemma_repairs_from_bins(e);
    assert forall|k: int| 0 <= k < e.repairs().len() implies {
        let r = #[trigger] e.repairs()[k];
        listed(r).len() == e.window && in_its_class(e, r)
    } by {
        let r = e.repairs()[k];
        assert(from_a_bin(e, r));
        let (i, j) = choose|i: int, j: int| emitted_by(e, r, i, j);
        assert(e.layers[i][j].window == e.window);
        assert(e.layers[i][j].symbols.len() <= e.window);
        assert(crate::fec::maelstrom::in_class(e.layers[i][j].symbols, e.layers[i].len(), j));
        assert(emitted_by(e, r, i, j) && crate::fec::maelstrom::in_class(
            listed(r),
            e.layers[i].len(),
            j,
        ));
    }
}

/// Whether `r` lists exactly `window` symbols, all of one residue class
/// modulo the number of bins of one layer, where `sizes` gives that number
/// for each layer.
pub open spec fn lists_a_class(r: PacketView, window: nat, sizes: Seq<nat>) -> bool {
    &&& listed(r).len() == window
    &&& exists|i: int, j: int|
        0 <= i < sizes.len() && 0 <= j < sizes[i] && #[trigger] crate::fec::maelstrom::in_class(
            listed(r),
            sizes[i],
            j,
        )
}

/// A fresh encoder whose bins take a symbol at least has no round due.
pub proof fn lemma_initial_drained(window: usize, interleaves: Seq<u64>)
    requires
        window > 0,
    ensures
        MaelstromEncoderView::initial(window, interleaves).drained(),
{
}

/// One symbol more, and the round that falls due with it. Where no round
/// was due before, none is due after; the layers keep their numbers of
/// bins; and each repair symbol of the round lists exactly a window's worth
/// of symbols from one residue class of one layer.
pub proof fn lemma_step_lists(e: MaelstromEncoderView, s: crate::fec::maelstrom::Symbol)
    requires
        e.wf(),
        e.drained(),
        e.window > 0,
        e.next_ssid < u64::MAX,
    ensures
        e.protect(s).sizes() == e.sizes(),
        e.protect(s).after_round().sizes() == e.sizes(),
        e.protect(s).any_full() ==> e.protect(s).after_round().drained(),
        !e.protect(s).any_full() ==> e.protect(s).drained(),
        forall|k: int|
            0 <= k < e.protect(s).repairs().len() ==> {
                let r = #[trigger] e.protect(s).repairs()[k];
                lists_a_class(r, e.window as nat, e.sizes())
            },
{
    let held = e.protect(s);
    crate::fec::maelstrom::lemma_protect_wf(e, s);
    lemma_protect_fills(e, s);
    lemma_round_drains(held);
    lemma_round_lists(held);
    assert(held.sizes() =~= e.sizes());
    assert(held.after_round().sizes() =~= e.sizes());
    assert forall|k: int| 0 <= k < held.repairs().len() implies {
        let r = #[trigger] held.repairs()[k];
        lists_a_class(r, e.window as nat, e.sizes())
    } by {
        let r = held.repairs()[k];
        assert(in_its_class(held, r));
        let (i, j) = choose|i: int, j: int| #[trigger]
            emitted_by(held, r, i, j) && crate::fec::maelstrom::in_class(
                listed(r),
                held.layers[i].len(),
                j,
            );
        assert(e.sizes()[i] == held.layers[i].len());
        assert(crate::fec::maelstrom::in_class(listed(r), e.sizes()[i], j));
    }
}

/// Two bins of a layer list no symbol in common.
pub proof fn lemma_bins_disjoint(e: MaelstromEncoderView, i: int, j: int, other: int, ssid: u64)
    requires
        e.wf(),
        0 <= i < e.layers.len(),
        0 <= j < e.layers[i].len(),
        0 <= other < e.layers[i].len(),
        j != other,
        e.layers[i][j].symbols.contains(ssid),
    ensures
        !e.layers[i][other].symbols.contains(ssid),
{
    let mine = e.layers[i][j].symbols;
    let theirs = e.layers[i][other].symbols;
    assert(crate::fec::maelstrom::in_class(mine, e.layers[i].len(), j));
    assert(crate::fec::maelstrom::in_class(theirs, e.layers[i].len(), other));
    let a = choose|a: int| 0 <= a < mine.len() && mine[a] == ssid;
    assert(mine[a] as int % e.layers[i].len() as int == j);
    if theirs.contains(ssid) {
        let b = choose|b: int| 0 <= b < theirs.len() && theirs[b] == ssid;
        assert(theirs[b] as int % e.layers[i].len() as int == other);
    }
}

/// Whether every symbol on the list of bin `j` of layer `i` is numbered
/// `floor` or above.
pub open spec fn bin_from(e: MaelstromEncoderView, i: int, j: int, floor: nat) -> bool {
    forall|a: int|
        0 <= a < e.layers[i][j].symbols.len() ==> (#[trigger] e.layers[i][j].symbols[a]) >= floor
}

/// The encoder after it has protected `symbols` in order and has run each
/// round of repairs as it fell due.
pub open spec fn carried(e: MaelstromEncoderView, symbols: Seq<Symbol>) -> MaelstromEncoderView
    decreases symbols.len(),
{
    if symbols.len() == 0 {
        e
    } else {
        let held = carried(e, symbols.drop_last()).protect(symbols.last());
        if held.any_full() {
            held.after_round()
        } else {
            held
        }
    }
}

/// A bin takes in nothing old: where its list holds no number below
/// `floor`, and the encoder has given out every number below `floor`, the
/// same holds after any further symbols.
pub proof fn lemma_carried_from(
    e: MaelstromEncoderView,
    i: int,
    j: int,
    floor: nat,
    symbols: Seq<Symbol>,
)
    requires
        0 <= i < e.layers.len(),
        0 <= j < e.layers[i].len(),
        bin_from(e, i, j, floor),
        floor <= e.next_ssid,
        e.next_ssid + symbols.len() <= u64::MAX,
    ensures
        carried(e, symbols).sizes() == e.sizes(),
        carried(e, symbols).next_ssid == e.next_ssid + symbols.len(),
        bin_from(carried(e, symbols), i, j, floor),
    decreases symbols.len(),
{
    if symbols.len() > 0 {
        lemma_carried_from(e, i, j, floor, symbols.drop_last());
        let before = carried(e, symbols.drop_last());
        let held = before.protect(symbols.last());
        assert(before.sizes()[i] == e.sizes()[i]);
        assert(held.sizes() =~= before.sizes());
        assert(held.after_round().sizes() =~= before.sizes());
        assert(bin_from(held, i, j, floor)) by {
            let was = before.layers[i][j].symbols;
            let now = held.layers[i][j].symbols;
            assert forall|a: int| 0 <= a < now.len() implies (#[trigger] now[a]) >= floor by {
                if a < was.len() {
                    assert(now[a] == was[a]);
                }
            }
        }
        assert(bin_from(held.after_round(), i, j, floor));
    }
}

/// The lists of one bin share no symbol: a symbol on the list that a bin
/// emits is on no list of that bin afterwards, whatever symbols follow.
pub proof fn lemma_lists_apart(
    e: MaelstromEncoderView,
    i: int,
    j: int,
    symbols: Seq<Symbol>,
    ssid: u64,
)
    requires
        e.wf(),
        0 <= i < e.layers.len(),
        0 <= j < e.layers[i].len(),
        e.layers[i][j].full(),
        e.layers[i][j].symbols.contains(ssid),
        e.next_ssid + symbols.len() <= u64::MAX,
    ensures
        !carried(e.after_round(), symbols).layers[i][j].symbols.contains(ssid),
{
    let after = e.after_round();
    assert(after.layers[i][j].symbols.len() == 0);
    assert(bin_from(after, i, j, e.next_ssid as nat));
    lemma_carried_from(after, i, j, e.next_ssid as nat, symbols);
    let list = e.layers[i][j].symbols;
    assert(all_below(list, e.next_ssid as nat));
    let a = choose|a: int| 0 <= a < list.len() && list[a] == ssid;
    assert(list[a] < e.next_ssid);
    let later = carried(after, symbols).layers[i][j].symbols;
    if later.contains(ssid) {
        let b = choose|b: int| 0 <= b < later.len() && later[b] == ssid;
        assert(later[b] >= e.next_ssid);
    }
}

} // verus!
