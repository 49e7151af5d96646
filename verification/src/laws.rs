//! What holds of a run of the pipeline, whatever the link loses.

use vstd::prelude::*;

use crate::all_ids_below;
use crate::all_in_step;
use crate::all_packets_below;
use crate::node::decoder::{
    decode, lemma_decode_below, lemma_decode_once, lemma_decode_queue, DecoderView,
};
use crate::fec::maelstrom::laws::{lemma_distinct_members, lemma_step_lists, lists_a_class};
use crate::fec::maelstrom::{
    all_below, distinct, is_first_solvable, lemma_missing_members, lemma_protect_wf,
    lemma_round_cancels, listed, missing, EquationView, Symbol,
};
use crate::fec::{FecEncoderView, FecMetadataView, FecRepairView};
use crate::word::be_word;
use crate::node::dropper::{lemma_passed_members, passed};
use crate::node::encoder::{
    encode, fresh_from, lemma_encode_below, lemma_encode_in_step, lemma_encode_lists,
    lemma_encode_room,
};
use crate::PacketView;
use crate::SimulatorView;

verus! {

/// What speaks of nothing at or above a bound speaks of nothing at or
/// above a larger one.
pub proof fn lemma_raise_bound(pkts: Seq<PacketView>, bound: nat, larger: nat)
    requires
        all_packets_below(pkts, bound),
        bound <= larger,
    ensures
        all_packets_below(pkts, larger),
{
    assert forall|i: int| 0 <= i < pkts.len() implies (#[trigger] pkts[i]).below(larger) by {
        assert(pkts[i].below(bound));
    }
}

/// A fresh pipeline holds nothing, so nothing in it speaks of a packet
/// that has not been minted.
pub proof fn lemma_fresh_within_run()
    ensures
        SimulatorView::fresh().within_run(),
        SimulatorView::fresh().ready(u64::MAX as nat),
{
}


/// What arrives at the decoder was on the way: what holds of every packet
/// that waits at the decoder, that waits at the dropper or that the encoder
/// sends holds of every packet in the decoder's queue once the link has
/// passed or lost what was on it.
pub proof fn lemma_arrivals(
    at_decoder: Seq<PacketView>,
    at_dropper: Seq<PacketView>,
    sent: Seq<PacketView>,
    drops: Seq<bool>,
    holds: spec_fn(PacketView) -> bool,
)
    requires
        drops.len() == at_dropper.len() + sent.len(),
        forall|i: int| 0 <= i < at_decoder.len() ==> holds(#[trigger] at_decoder[i]),
        forall|i: int| 0 <= i < at_dropper.len() ==> holds(#[trigger] at_dropper[i]),
        forall|i: int| 0 <= i < sent.len() ==> holds(#[trigger] sent[i]),
    ensures
        forall|i: int|
            0 <= i < (at_decoder + passed(at_dropper + sent, drops)).len() ==> holds(
                #[trigger] (at_decoder + passed(at_dropper + sent, drops))[i],
            ),
{
    let on_link = at_dropper + sent;
    let through = passed(on_link, drops);
    let arrived = at_decoder + through;
    lemma_passed_members(on_link, drops);
    assert forall|i: int| 0 <= i < arrived.len() implies holds(#[trigger] arrived[i]) by {
        if i < at_decoder.len() {
            assert(arrived[i] == at_decoder[i]);
        } else {
            let x = through[i - at_decoder.len()];
            assert(arrived[i] == x);
            assert(on_link.contains(x));
            let w = choose|w: int| 0 <= w < on_link.len() && on_link[w] == x;
            if w < at_dropper.len() {
                assert(on_link[w] == at_dropper[w]);
            } else {
                assert(on_link[w] == sent[w - at_dropper.len()]);
            }
        }
    }
}

/// A tick brings nothing from beyond the run. Where nothing in the pipeline
/// speaks of a packet that the source has not minted, the same holds after
/// one more tick, whatever the oracle decides.
pub proof fn lemma_tick_within_run(v: SimulatorView, drops: Seq<bool>)
    requires
        v.within_run(),
        v.next_id < u64::MAX,
        drops.len() == v.decisions(),
    ensures
        v.tick(drops).state.within_run(),
{
    let bound = (v.next_id + 1) as nat;
    let queued = v.encoder.queue.push(PacketView::fresh(v.next_id));
    let pass = encode(v.encoder.fec, v.encoder.nb_rs, queued);
    assert(all_packets_below(queued, bound)) by {
        assert forall|i: int| 0 <= i < queued.len() implies (#[trigger] queued[i]).below(bound) by {
            if i < v.encoder.queue.len() {
                assert(queued[i] == v.encoder.queue[i]);
                assert(v.encoder.queue[i].below(v.next_id as nat));
            }
        }
    }
    lemma_encode_below(v.encoder.fec, v.encoder.nb_rs, queued, bound);
    lemma_raise_bound(v.dropper.queue, v.next_id as nat, bound);
    lemma_raise_bound(v.decoder.queue, v.next_id as nat, bound);
    assert(v.decoder.fec.below(bound));
    assert(all_ids_below(v.sink, bound));
    if !pass.refused {
        let arrived = v.decoder.queue + passed(v.dropper.queue + pass.out, drops);
        assert(all_packets_below(arrived, bound)) by {
            lemma_arrivals(
                v.decoder.queue,
                v.dropper.queue,
                pass.out,
                drops,
                |p: PacketView| p.below(bound),
            );
        }
        let start = DecoderView { queue: Seq::empty(), ..v.decoder };
        lemma_decode_below(start, arrived, bound);
        lemma_decode_queue(start, arrived);
    }
}

/// A tick keeps the interleaved XOR code in step with the source: what is
/// rebuilt has not reached the sink before.
pub proof fn lemma_tick_in_step(v: SimulatorView, drops: Seq<bool>)
    requires
        v.in_step(),
        v.next_id < u64::MAX,
        drops.len() == v.decisions(),
    ensures
        v.tick(drops).state.in_step(),
{
    let queued = v.encoder.queue.push(PacketView::fresh(v.next_id));
    let pass = encode(v.encoder.fec, v.encoder.nb_rs, queued);
    assert(fresh_from(queued, v.encoder.fec.next_number())) by {
        assert forall|k: int| 0 <= k < queued.len() implies v.encoder.fec.next_number() + k
            <= u64::MAX && #[trigger] queued[k] == PacketView::fresh(
            (v.encoder.fec.next_number() + k) as u64,
        ) by {
            if k < v.encoder.queue.len() {
                assert(queued[k] == v.encoder.queue[k]);
            }
        }
    }
    lemma_encode_in_step(v.encoder.fec, v.encoder.nb_rs, queued);
    let arrived = v.decoder.queue + passed(v.dropper.queue + pass.out, drops);
    assert(all_in_step(arrived)) by {
        lemma_arrivals(
            v.decoder.queue,
            v.dropper.queue,
            pass.out,
            drops,
            |p: PacketView| p.in_step(),
        );
    }
    let start = DecoderView { queue: Seq::empty(), ..v.decoder };
    lemma_decode_once(start, arrived, v.sink);
    lemma_decode_queue(start, arrived);
    let released = decode(start, arrived);
    assert(released.state.tracks(v.sink)) by {
        assert forall|j: int| 0 <= j < v.sink.len() implies (released.state.fec
            ->Maelstrom_0).known.dom().contains((#[trigger] v.sink[j]).id) by {
            assert((v.sink + released.out)[j] == v.sink[j]);
        }
    }
}

/// A run keeps what its ticks keep. From a pipeline in which nothing speaks
/// of a packet that the source has not minted, no run brings a packet to
/// the sink that is numbered beyond what the source has minted by then. From
/// a pipeline in which the interleaved XOR code is in step with the source,
/// no run brings a rebuilt packet to the sink whose number a packet before
/// it in the sink has.
pub proof fn lemma_run_keeps_laws(v: SimulatorView, ticks: Seq<Seq<bool>>)
    requires
        v.decided_by(ticks),
        v.next_id + ticks.len() <= u64::MAX,
    ensures
        v.run(ticks).state.next_id <= v.next_id + ticks.len(),
        v.within_run() ==> v.run(ticks).state.within_run(),
        v.in_step() ==> v.run(ticks).state.in_step(),
    decreases ticks.len(),
{
    if ticks.len() > 0 {
        lemma_run_keeps_laws(v, ticks.drop_last());
        let before = v.run(ticks.drop_last());
        if before.failed.is_none() {
            if v.within_run() {
                lemma_tick_within_run(before.state, ticks.last());
            }
            if v.in_step() {
                lemma_tick_in_step(before.state, ticks.last());
            }
        }
    }
}


/// The encoder runs the interleaved XOR code with bins of `window` symbols
/// in layers of `sizes` bins, is in order, has numbers left for what waits,
/// and has run every round of repairs that was due.
pub open spec fn rounds_run(v: SimulatorView, window: nat, sizes: Seq<nat>) -> bool {
    &&& v.encoder.fec is Maelstrom
    &&& v.encoder.fec.wf()
    &&& v.encoder.fec.drained()
    &&& v.encoder.fec->Maelstrom_0.window == window
    &&& v.encoder.fec->Maelstrom_0.sizes() == sizes
    &&& v.encoder.fec.next_number() + v.encoder.queue.len() <= v.next_id
}

/// What the encoder sends in the tick that follows `v`.
pub open spec fn sent_in_tick(v: SimulatorView) -> Seq<PacketView> {
    encode(
        v.encoder.fec,
        v.encoder.nb_rs,
        v.encoder.queue.push(PacketView::fresh(v.next_id)),
    ).out
}

/// A tick leaves no round of repairs undone, and every repair symbol that
/// the encoder sends in it lists exactly a window's worth of symbols, all of
/// one residue class of one layer.
pub proof fn lemma_tick_rounds_run(
    v: SimulatorView,
    drops: Seq<bool>,
    window: nat,
    sizes: Seq<nat>,
)
    requires
        rounds_run(v, window, sizes),
        v.next_id < u64::MAX,
    ensures
        rounds_run(v.tick(drops).state, window, sizes),
        forall|k: int|
            0 <= k < sent_in_tick(v).len() ==> {
                let r = #[trigger] sent_in_tick(v)[k];
                r.is_repair() ==> lists_a_class(r, window, sizes)
            },
{
    let queued = v.encoder.queue.push(PacketView::fresh(v.next_id));
    let m = v.encoder.fec->Maelstrom_0;
    lemma_encode_lists(m, v.encoder.nb_rs, queued);
    lemma_encode_room(v.encoder.fec, v.encoder.nb_rs, queued);
}

/// A run leaves no round of repairs undone.
pub proof fn lemma_run_rounds_run(
    v: SimulatorView,
    ticks: Seq<Seq<bool>>,
    window: nat,
    sizes: Seq<nat>,
)
    requires
        rounds_run(v, window, sizes),
        v.next_id + ticks.len() <= u64::MAX,
    ensures
        v.run(ticks).state.next_id <= v.next_id + ticks.len(),
        rounds_run(v.run(ticks).state, window, sizes),
    decreases ticks.len(),
{
    if ticks.len() > 0 {
        lemma_run_rounds_run(v, ticks.drop_last(), window, sizes);
        let before = v.run(ticks.drop_last());
        if before.failed.is_none() {
            lemma_tick_rounds_run(before.state, ticks.last(), window, sizes);
        }
    }
}

/// The pipeline applies no code, reports no feedback, runs over a link that
/// loses nothing, and nothing waits in it.
pub open spec fn plain(v: SimulatorView) -> bool {
    &&& v.encoder.fec is NoFec
    &&& v.encoder.queue.len() == 0
    &&& v.dropper.oracle is Never
    &&& v.dropper.queue.len() == 0
    &&& v.decoder.fec is NoFec
    &&& v.decoder.feedback is None
    &&& v.decoder.queue.len() == 0
}

/// A tick of the plain pipeline delivers the packet that the source mints,
/// and nothing else: nothing is dropped, and nothing rebuilt.
pub proof fn lemma_plain_tick(v: SimulatorView, drops: Seq<bool>)
    requires
        plain(v),
        v.next_id < u64::MAX,
        drops.len() == v.decisions(),
        v.dropper.oracle.allows(drops),
    ensures
        v.tick(drops).failed.is_none(),
        plain(v.tick(drops).state),
        v.tick(drops).state.next_id == v.next_id + 1,
        v.tick(drops).state.sink == v.sink.push(PacketView::fresh(v.next_id)),
        v.tick(drops).state.dropper.nb_drop == v.dropper.nb_drop,
        v.tick(drops).state.decoder.nb_recovered == v.decoder.nb_recovered,
{
    let minted = PacketView::fresh(v.next_id);
    let queued = v.encoder.queue.push(minted);
    assert(queued =~= seq![minted]);
    assert(queued.drop_last() =~= Seq::<PacketView>::empty());
    let none = encode(v.encoder.fec, v.encoder.nb_rs, Seq::<PacketView>::empty());
    assert(!none.refused && none.out =~= Seq::<PacketView>::empty() && none.fec == v.encoder.fec);
    let pass = encode(v.encoder.fec, v.encoder.nb_rs, queued);
    assert(pass.out =~= seq![minted]);
    let link = v.dropper.receiving(pass.out);
    assert(link.queue =~= seq![minted]);
    crate::drop::lemma_never_drops(drops.len());
    crate::node::dropper::lemma_passed_all(link.queue, drops);
    let arrived = v.decoder.queue + passed(link.queue, drops);
    assert(arrived =~= seq![minted]);
    assert(arrived.drop_last() =~= Seq::<PacketView>::empty());
    let start = DecoderView { queue: Seq::empty(), ..v.decoder };
    let idle = decode(start, Seq::<PacketView>::empty());
    assert(idle.failed.is_none() && idle.state == start);
    let released = decode(start, arrived);
    assert(released.out =~= seq![minted]);
    assert(v.sink + released.out =~= v.sink.push(minted));
    assert(v.dropper.queue + pass.out =~= link.queue);
}

/// A run of the plain pipeline delivers every packet that the source
/// mints, in order, and nothing else: nothing is lost, and nothing rebuilt.
pub proof fn lemma_plain_run(v: SimulatorView, ticks: Seq<Seq<bool>>)
    requires
        plain(v),
        v.decided_by(ticks),
        v.next_id + ticks.len() <= u64::MAX,
    ensures
        v.run(ticks).failed.is_none(),
        plain(v.run(ticks).state),
        v.run(ticks).state.next_id == v.next_id + ticks.len(),
        v.run(ticks).state.sink == v.sink + Seq::new(
            ticks.len(),
            |i: int| PacketView::fresh((v.next_id + i) as u64),
        ),
        v.run(ticks).state.dropper.nb_drop == v.dropper.nb_drop,
        v.run(ticks).state.decoder.nb_recovered == v.decoder.nb_recovered,
    decreases ticks.len(),
{
    let want = v.sink + Seq::new(ticks.len(), |i: int| PacketView::fresh((v.next_id + i) as u64));
    if ticks.len() == 0 {
        assert(v.run(ticks).state.sink =~= want);
    } else {
        let before = v.run(ticks.drop_last());
        lemma_plain_run(v, ticks.drop_last());
        lemma_plain_tick(before.state, ticks.last());
        assert(v.run(ticks).state.sink =~= want);
    }
}

/// Whether `r` is a repair symbol of the interleaved XOR code that
/// protects source symbols, all of which are in `known`.
pub open spec fn tells_nothing(r: PacketView, known: Set<u64>) -> bool {
    &&& r.fec == Some(FecMetadataView::Repair(FecRepairView::Maelstrom(listed(r))))
    &&& listed(r).len() > 0
    &&& forall|a: int| 0 <= a < listed(r).len() ==> known.contains(#[trigger] listed(r)[a])
}

/// Repair symbols that tell nothing new yield nothing. Where a pass has
/// brought the decoder of the interleaved XOR code to a state in which it
/// keeps no equation, repair symbols that follow and protect known symbols
/// only neither end the pass nor rebuild a packet, and leave the code as it
/// was.
pub proof fn lemma_decode_told(start: DecoderView, head: Seq<PacketView>, told: Seq<PacketView>)
    requires
        decode(start, head).failed.is_none(),
        decode(start, head).state.fec is Maelstrom,
        forall|k: int|
            0 <= k < told.len() ==> tells_nothing(
                #[trigger] told[k],
                decode(start, head).state.fec->Maelstrom_0.known.dom(),
            ),
    ensures
        decode(start, head + told).failed.is_none(),
        decode(start, head + told).out == decode(start, head).out,
        decode(start, head + told).state.fec == decode(start, head).state.fec,
        decode(start, head + told).state.feedback == decode(start, head).state.feedback,
        decode(start, head + told).state.nb_recovered == decode(start, head).state.nb_recovered,
    decreases told.len(),
{
    if told.len() == 0 {
        assert(head + told =~= head);
    } else {
        let front = told.drop_last();
        let r = told.last();
        assert forall|k: int| 0 <= k < front.len() implies tells_nothing(
            #[trigger] front[k],
            decode(start, head).state.fec->Maelstrom_0.known.dom(),
        ) by {
            assert(front[k] == told[k]);
        }
        lemma_decode_told(start, head, front);
        assert((head + told).drop_last() =~= head + front);
        assert((head + told).last() == r);
        assert(told[told.len() - 1] == r);
        let before = decode(start, head + front);
        let d = before.state.fec->Maelstrom_0;
        let list = listed(r);
        let need = distinct(list);
        let lacking = missing(need, d.known.dom());
        assert(lacking.len() == 0) by {
            lemma_distinct_members(list);
            lemma_missing_members(need, d.known.dom());
            if lacking.len() > 0 {
                let x = lacking[0];
                assert(lacking.contains(x));
                assert(need.contains(x) && !d.known.dom().contains(x));
                assert(list.contains(x));
                let a = choose|a: int| 0 <= a < list.len() && list[a] == x;
                assert(d.known.dom().contains(list[a]));
            }
        }
        let step = before.state.absorb(r);
        assert(step.out =~= Seq::<PacketView>::empty());
        assert(before.out + step.out =~= before.out);
    }
}

/// The interleaved XOR code runs over a link that loses nothing: the
/// encoder is in order, has numbered as the source has and has run every
/// round of repairs that was due; nothing waits; and the decoder reports
/// nothing, keeps no equation and knows every symbol that was sent.
pub open spec fn lossless(v: SimulatorView) -> bool {
    &&& v.encoder.fec is Maelstrom
    &&& v.encoder.fec.wf()
    &&& v.encoder.fec.drained()
    &&& v.encoder.fec.next_number() == v.next_id
    &&& v.encoder.queue.len() == 0
    &&& v.dropper.oracle is Never
    &&& v.dropper.queue.len() == 0
    &&& v.decoder.fec is Maelstrom
    &&& v.decoder.fec->Maelstrom_0.equations.len() == 0
    &&& forall|s: u64|
        s < v.next_id ==> #[trigger] v.decoder.fec->Maelstrom_0.known.dom().contains(s)
    &&& v.decoder.feedback is None
    &&& v.decoder.queue.len() == 0
}

/// Over a link that loses nothing, a tick of the interleaved XOR code
/// delivers the packet that the source mints, and nothing else: nothing is
/// dropped, no repair symbol is put to use, and nothing is rebuilt.
pub proof fn lemma_lossless_tick(v: SimulatorView, drops: Seq<bool>)
    requires
        lossless(v),
        v.next_id < u64::MAX,
        drops.len() == v.decisions(),
        v.dropper.oracle.allows(drops),
    ensures
        v.tick(drops).failed.is_none(),
        lossless(v.tick(drops).state),
        v.tick(drops).state.next_id == v.next_id + 1,
        v.tick(drops).state.sink == v.sink.push(PacketView::fresh(v.next_id)),
        v.tick(drops).state.dropper.nb_drop == v.dropper.nb_drop,
        v.tick(drops).state.decoder.nb_recovered == v.decoder.nb_recovered,
{
    let minted = PacketView::fresh(v.next_id);
    let queued = v.encoder.queue.push(minted);
    assert(queued =~= seq![minted]);
    assert(queued.drop_last() =~= Seq::<PacketView>::empty());
    assert(queued.last() == minted);
    let m = v.encoder.fec->Maelstrom_0;
    let pass = encode(v.encoder.fec, v.encoder.nb_rs, queued);
    lemma_encode_lists(m, v.encoder.nb_rs, queued);
    let s = Symbol { id: minted.id, word: be_word(minted.payload) };
    let held = m.protect(s);
    let marked = v.encoder.fec.protected(minted);
    let repairs = if held.any_full() {
        held.repairs()
    } else {
        Seq::<PacketView>::empty()
    };
    lemma_protect_wf(m, s);
    lemma_round_cancels(held);
    lemma_step_lists(m, s);
    let none = encode(v.encoder.fec, v.encoder.nb_rs, Seq::<PacketView>::empty());
    assert(!none.refused && none.out =~= Seq::<PacketView>::empty() && none.fec == v.encoder.fec);
    assert(!v.encoder.fec.refuses(minted));
    assert(v.encoder.fec.protect(minted) == FecEncoderView::Maelstrom(held));
    assert(pass.out =~= seq![marked] + repairs);
    assert(!pass.refused);
    assert(pass.fec.next_number() == v.next_id + 1);

    // The link passes all of it.
    let link = v.dropper.receiving(pass.out);
    assert(v.dropper.queue + pass.out =~= pass.out);
    crate::drop::lemma_never_drops(drops.len());
    crate::node::dropper::lemma_passed_all(pass.out, drops);
    let arrived = v.decoder.queue + passed(pass.out, drops);
    assert(arrived =~= seq![marked] + repairs);

    // The source symbol goes out, and the decoder knows it from then on.
    let start = DecoderView { queue: Seq::empty(), ..v.decoder };
    let head = seq![marked];
    assert(head.drop_last() =~= Seq::<PacketView>::empty());
    assert(head.last() == marked);
    let idle = decode(start, Seq::<PacketView>::empty());
    assert(idle.failed.is_none() && idle.state == start);
    let d = v.decoder.fec->Maelstrom_0;
    let known = d.known.insert(v.next_id, be_word(minted.payload));
    assert(forall|i: int| !is_first_solvable(d.equations, known.dom(), i));
    let first = decode(start, head);
    let after = first.state.fec->Maelstrom_0;
    assert(after.known == known);
    assert(after.equations =~= Seq::<EquationView>::empty());
    assert(first.out =~= seq![minted]);
    assert(first.state.nb_recovered == v.decoder.nb_recovered);

    // The repair symbols that follow tell nothing new.
    assert forall|k: int| 0 <= k < repairs.len() implies tells_nothing(
        #[trigger] repairs[k],
        known.dom(),
    ) by {
        let r = held.repairs()[k];
        assert(repairs[k] == r);
        assert(lists_a_class(r, m.window as nat, m.sizes()));
        assert(all_below(listed(r), held.next_ssid as nat));
        assert forall|a: int| 0 <= a < listed(r).len() implies known.dom().contains(
            #[trigger] listed(r)[a],
        ) by {
            let x = listed(r)[a];
            if x < v.next_id {
                assert(d.known.dom().contains(x));
            }
        }
    }
    lemma_decode_told(start, head, repairs);
    let released = decode(start, arrived);
    lemma_decode_queue(start, arrived);
    assert(v.sink + released.out =~= v.sink.push(minted));
    let next = v.tick(drops).state;
    assert forall|x: u64| x < next.next_id implies #[trigger] next.decoder.fec->Maelstrom_0.known.dom().contains(
        x,
    ) by {
        if x < v.next_id {
            assert(d.known.dom().contains(x));
        }
    }
}

/// Over a link that loses nothing, a run of the interleaved XOR code
/// delivers every packet that the source mints, in order, and nothing else:
/// nothing is lost, and nothing rebuilt.
pub proof fn lemma_lossless_run(v: SimulatorView, ticks: Seq<Seq<bool>>)
    requires
        lossless(v),
        v.decided_by(ticks),
        v.next_id + ticks.len() <= u64::MAX,
    ensures
        v.run(ticks).failed.is_none(),
        lossless(v.run(ticks).state),
        v.run(ticks).state.next_id == v.next_id + ticks.len(),
        v.run(ticks).state.sink == v.sink + Seq::new(
            ticks.len(),
            |i: int| PacketView::fresh((v.next_id + i) as u64),
        ),
        v.run(ticks).state.dropper.nb_drop == v.dropper.nb_drop,
        v.run(ticks).state.decoder.nb_recovered == v.decoder.nb_recovered,
    decreases ticks.len(),
{
    let want = v.sink + Seq::new(ticks.len(), |i: int| PacketView::fresh((v.next_id + i) as u64));
    if ticks.len() == 0 {
        assert(v.run(ticks).state.sink =~= want);
    } else {
        let before = v.run(ticks.drop_last());
        lemma_lossless_run(v, ticks.drop_last());
        lemma_lossless_tick(before.state, ticks.last());
        assert(v.run(ticks).state.sink =~= want);
    }
}

} // verus!
