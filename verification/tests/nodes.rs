use fec_simulator::drop::constant::ConstantDropScheduler;
use fec_simulator::drop::none::NoDropScheduler;
use fec_simulator::drop::specific::SpecificDropScheduler;
use fec_simulator::drop::{DropOracle, DropScheduler};
use fec_simulator::fec::maelstrom::{MaelstromDecoder, MaelstromEncoder};
use fec_simulator::fec::{FecDecoder, FecEncoder, FecMetadata};
use fec_simulator::node::decoder::Decoder;
use fec_simulator::node::dropper::Dropper;
use fec_simulator::node::encoder::Encoder;
use fec_simulator::node::{Sink, Source};
use fec_simulator::{Error, Packet, Simulator};

#[test]
fn constant_scheduler_drops_every_step() {
    let mut s = ConstantDropScheduler::new(3);
    let drops: Vec<bool> = (0..7).map(|_| s.should_drop()).collect();
    assert_eq!(drops, vec![false, false, true, false, false, true, false]);
    let mut always = ConstantDropScheduler::new(0);
    assert!(always.should_drop());
    assert!(always.should_drop());
}

#[test]
fn specific_scheduler_repeats_its_cycle() {
    let mut s = SpecificDropScheduler::new(4);
    s.add_to_drop(&[1, 3, 9]);
    let drops: Vec<bool> = (0..9).map(|_| s.should_drop()).collect();
    assert_eq!(drops, vec![false, true, false, true, false, true, false, true, false]);
}

#[test]
fn no_drop_scheduler_keeps_everything() {
    let mut s = NoDropScheduler {};
    assert!(!s.should_drop());
    assert!(!s.should_drop());
}

#[test]
fn source_numbers_from_zero() {
    let mut source = Source::new();
    let first = source.gen();
    let second = source.gen();
    assert_eq!(first.get_id(), 0);
    assert_eq!(second.get_id(), 1);
    assert_eq!(second.get_data(), &vec![0, 0, 0, 0, 0, 0, 0, 1]);
    assert!(second.get_fec().is_none());
    assert_eq!(second.get_recovered(), None);
}

#[test]
fn encoder_node_appends_repairs_after_their_trigger() {
    let encoder = MaelstromEncoder::new(2, &[1, 2]);
    let mut node = Encoder::new(FecEncoder::Maelstrom(encoder));
    assert_eq!(node.recv((0..4).map(Packet::new).collect()), Ok(()));
    let out = node.forw().unwrap();
    let kinds: Vec<bool> =
        out.iter().map(|p| matches!(p.get_fec(), Some(FecMetadata::Repair(_)))).collect();
    assert_eq!(kinds, vec![false, false, true, false, true, false, true, true]);
    let ids: Vec<u64> = out.iter().map(|p| p.get_id()).collect();
    assert_eq!(ids, vec![0, 1, 1, 2, 2, 3, 1, 2]);
    assert_eq!(node.get_nb_ss(), 4);
    assert_eq!(node.get_nb_rs(), 4);
    assert_eq!(node.get_fec_encoder().label(), "maelstrom_1_2_2");
    assert_eq!(node.forw(), Ok(vec![]));
}

#[test]
fn encoder_node_stops_at_a_marked_packet() {
    let encoder = MaelstromEncoder::new(2, &[1]);
    let mut node = Encoder::new(FecEncoder::Maelstrom(encoder));
    let mut first = Encoder::new(FecEncoder::Maelstrom(MaelstromEncoder::new(2, &[1])));
    first.recv(vec![Packet::new(5)]).unwrap();
    let marked = first.forw().unwrap().remove(0);
    assert_eq!(node.recv(vec![Packet::new(0), marked, Packet::new(1)]), Ok(()));
    assert_eq!(node.forw(), Err(Error::FecDoubleMetadata));
    // All three were counted, and the queue is empty.
    assert_eq!(node.get_nb_ss(), 3);
    assert_eq!(node.forw(), Ok(vec![]));
}

#[test]
fn plain_encoder_passes_packets_as_they_are() {
    let mut node = Encoder::new_simple();
    node.recv(vec![Packet::new(3), Packet::new(1)]).unwrap();
    let out = node.forw().unwrap();
    assert_eq!(out.len(), 2);
    assert!(out.iter().all(|p| p.get_fec().is_none()));
    assert_eq!(node.get_nb_ss(), 2);
    assert_eq!(node.get_nb_rs(), 0);
    assert_eq!(node.get_fec_encoder().label(), "none");
    node.recv_feedback(vec![(1, 2)]);
    assert_eq!(node.get_nb_rs(), 0);
}

#[test]
fn encoder_settles_what_another_code_protected() {
    let mut node = Encoder::new_simple();
    let mut out = Vec::new();
    assert_eq!(node.settle(Packet::new(0), Ok(vec![Packet::new(90), Packet::new(91)]), &mut out), Ok(()));
    assert_eq!(out.len(), 3);
    assert_eq!(node.get_nb_rs(), 2);
    let none = Err(Error::FecEncoder("NoSymbolToGenerate".to_string()));
    assert_eq!(node.settle(Packet::new(1), none, &mut out), Ok(()));
    assert_eq!(out.len(), 4);
    let failed = Err(Error::FecEncoder("BufferTooSmall".to_string()));
    assert_eq!(
        node.settle(Packet::new(2), failed, &mut out),
        Err(Error::FecEncoder("BufferTooSmall".to_string()))
    );
    assert_eq!(node.settle(Packet::new(3), Err(Error::Forward), &mut out), Err(Error::Forward));
    assert_eq!(node.get_nb_ss(), 4);
    assert_eq!(node.get_nb_rs(), 2);
}

#[test]
fn dropper_counts_and_traces() {
    let encoder = MaelstromEncoder::new(2, &[1]);
    let mut node = Encoder::new(FecEncoder::Maelstrom(encoder));
    node.recv((0..4).map(Packet::new).collect()).unwrap();
    // s0 s1 R s2 s3 R
    let packets = node.forw().unwrap();
    let mut dropper = Dropper::new(Box::new(ConstantDropScheduler::new(3)));
    assert_eq!(dropper.get_trace(), None);
    assert_eq!(dropper.get_dropped_ss(), None);
    dropper.activate_trace();
    assert_eq!(dropper.recv(packets), Ok(()));
    assert_eq!(dropper.get_nb_recv(), 6);
    let out = dropper.forw().unwrap();
    let ids: Vec<u64> = out.iter().map(|p| p.get_id()).collect();
    assert_eq!(ids, vec![0, 1, 2, 3]);
    assert_eq!(dropper.get_nb_dropped(), 2);
    assert_eq!(dropper.get_nb_ss_dropped(), 0);
    let trace: Vec<(u64, bool, bool)> = dropper.get_trace().unwrap().to_vec();
    assert_eq!(
        trace,
        vec![
            (0, false, false),
            (1, false, false),
            (1, true, true),
            (2, false, false),
            (3, false, false),
            (1, true, true),
        ]
    );
    assert_eq!(dropper.get_dropped_ss(), Some(vec![]));
    // The scheduler goes on where it was.
    dropper.recv(vec![Packet::new(7), Packet::new(8), Packet::new(9)]).unwrap();
    let out = dropper.forw().unwrap();
    assert_eq!(out.len(), 2);
    assert_eq!(dropper.get_nb_dropped(), 3);
    // An unmarked packet is no source symbol.
    assert_eq!(dropper.get_nb_ss_dropped(), 0);
    assert_eq!(dropper.get_nb_recv(), 9);
}

#[test]
fn dropper_tells_source_symbols_apart() {
    let encoder = MaelstromEncoder::new(9, &[1]);
    let mut node = Encoder::new(FecEncoder::Maelstrom(encoder));
    node.recv((0..4).map(Packet::new).collect()).unwrap();
    let packets = node.forw().unwrap();
    let mut scheduler = SpecificDropScheduler::new(10);
    scheduler.add_to_drop(&[1, 2]);
    let mut dropper = Dropper::new(Box::new(scheduler));
    dropper.activate_trace();
    dropper.recv(packets).unwrap();
    let out = dropper.forw().unwrap();
    assert_eq!(out.len(), 2);
    assert_eq!(dropper.get_nb_ss_dropped(), 2);
    assert_eq!(dropper.get_dropped_ss(), Some(vec![1, 2]));
}

#[test]
fn decoder_node_strips_and_counts() {
    let encoder = MaelstromEncoder::new(3, &[1]);
    let mut sender = Encoder::new(FecEncoder::Maelstrom(encoder));
    sender.recv((0..3).map(Packet::new).collect()).unwrap();
    let mut packets = sender.forw().unwrap();
    packets.remove(1);
    packets.push(Packet::new(77));
    let mut node = Decoder::new(FecDecoder::Maelstrom(MaelstromDecoder::new(60)), None);
    assert_eq!(node.get_trace(), None);
    node.activate_trace();
    assert_eq!(node.recv(packets), Ok(()));
    let (out, reports) = node.forw().unwrap();
    assert!(reports.is_empty());
    let ids: Vec<u64> = out.iter().map(|p| p.get_id()).collect();
    // s0, s2, then what the repair symbol rebuilt, then the unmarked packet.
    assert_eq!(ids, vec![0, 2, 1, 77]);
    assert!(out[0].get_fec().is_none());
    assert!(out[1].get_fec().is_none());
    assert!(out[2].get_fec().is_some());
    assert_eq!(out[2].get_recovered(), Some(2));
    assert_eq!(node.get_nb_recovered(), 1);
    assert_eq!(node.get_trace(), Some(&[1u64][..]));
}

#[test]
fn decoder_node_passes_over_what_the_code_refuses() {
    let encoder = MaelstromEncoder::new(2, &[1]);
    let mut sender = Encoder::new(FecEncoder::Maelstrom(encoder));
    sender.recv((0..12).map(Packet::new).collect()).unwrap();
    let packets = sender.forw().unwrap();
    let mut node = Decoder::new(FecDecoder::Maelstrom(MaelstromDecoder::new(4)), None);
    // s10 first, then the repair symbol for 4 and 5, which is too old.
    let late = vec![packets[15].clone(), packets[8].clone()];
    node.recv(late).unwrap();
    let (out, _) = node.forw().unwrap();
    assert_eq!(out.len(), 1);
    assert_eq!(out[0].get_id(), 10);
    assert_eq!(node.get_nb_recovered(), 0);
}

#[test]
fn sink_tells_what_came_and_what_did_not() {
    let mut sink = Sink::new();
    sink.recv(Packet::new(0));
    sink.recv_multiple(vec![
        Packet::new(2),
        Packet::new_recovered(1, 4),
        Packet::new(2),
        Packet::new_recovered(6, 3),
        Packet::new(1),
    ]);
    assert_eq!(sink.get_recovered(), vec![1, 6]);
    assert_eq!(sink.get_recovering_delay(), vec![(1, 3), (6, 0)]);
    assert_eq!(sink.get_lost(8), vec![3, 4, 5, 7]);
    assert_eq!(sink.get_lost(0), Vec::<u64>::new());
    assert_eq!(sink.get_duplicates(), vec![2, 1]);
}

#[test]
fn nothing_reaches_the_sink_from_beyond_the_run() {
    let mut simulator = Simulator::new();
    simulator.set_encoder(Encoder::new(FecEncoder::Maelstrom(MaelstromEncoder::new(4, &[1, 4]))));
    let mut scheduler = SpecificDropScheduler::new(7);
    scheduler.add_to_drop(&[2, 3]);
    simulator.set_dropper(Dropper::new(Box::new(scheduler)));
    simulator
        .set_decoder(Decoder::new(FecDecoder::Maelstrom(MaelstromDecoder::new(80)), None));
    assert_eq!(simulator.run(50), Ok(()));
    let recovered = simulator.get_sink().get_recovered();
    assert!(!recovered.is_empty());
    assert!(recovered.iter().all(|id| *id < 50));
    let lost = simulator.get_sink().get_lost(1000);
    // Whatever is numbered 50 or more never came.
    assert_eq!(&lost[lost.len() - 950..], (50..1000).collect::<Vec<u64>>().as_slice());
    // A second run goes on where the first ended.
    assert_eq!(simulator.run(10), Ok(()));
    assert!(simulator.get_sink().get_recovered().iter().all(|id| *id < 60));
    assert_eq!(simulator.get_encoder().get_nb_ss(), 60);
}

#[test]
fn no_code_no_loss() {
    let mut simulator = Simulator::default();
    assert_eq!(simulator.run(0), Ok(()));
    assert_eq!(simulator.get_sink().get_lost(3), vec![0, 1, 2]);
    assert_eq!(simulator.run(3), Ok(()));
    assert_eq!(simulator.get_sink().get_lost(3), Vec::<u64>::new());
    assert_eq!(simulator.get_dropper().get_nb_recv(), 3);
    assert_eq!(simulator.get_decoder().get_nb_recovered(), 0);
}

#[test]
fn dropper_settles_as_it_is_told() {
    let mut dropper = Dropper::new_simple();
    dropper.activate_trace();
    let mut marked = Packet::new(4);
    let mut encoder = MaelstromEncoder::new(9, &[1]);
    encoder.protect_symbol(&mut marked).unwrap();
    let mut out = Vec::new();
    dropper.settle(Packet::new(3), false, &mut out);
    dropper.settle(marked, true, &mut out);
    dropper.settle(Packet::new(5), true, &mut out);
    assert_eq!(out.len(), 1);
    assert_eq!(out[0].get_id(), 3);
    assert_eq!(dropper.get_nb_dropped(), 2);
    assert_eq!(dropper.get_nb_ss_dropped(), 1);
    assert_eq!(dropper.get_nb_recv(), 0);
    assert_eq!(
        dropper.get_trace().unwrap().to_vec(),
        vec![(3, false, false), (4, false, true), (5, false, true)]
    );
}

#[test]
fn decoder_node_stops_at_foreign_metadata() {
    let mut node = Decoder::new(FecDecoder::Maelstrom(MaelstromDecoder::new(40)), None);
    let mut foreign = Packet::new(1);
    foreign
        .add_fec_metadata(FecMetadata::Source(fec_simulator::fec::FecSourceMetadata::Tart([0; 8])))
        .unwrap();
    node.recv(vec![Packet::new(0), foreign, Packet::new(2)]).unwrap();
    assert_eq!(node.forw(), Err(Error::FecWrongMetadata));
    // The pass has ended: the queue is empty.
    assert_eq!(node.forw(), Ok((vec![], vec![])));
    // A repair symbol that protects nothing is mistyped.
    let mut idle = MaelstromEncoder::new(0, &[1]);
    let nothing = idle.generate_rs().unwrap();
    node.recv(nothing).unwrap();
    assert_eq!(node.forw(), Err(Error::FecWrongMetadata));
}

#[test]
fn decoder_node_settles_refusals_by_their_kind() {
    let mut node = Decoder::new_simple();
    let mut enc = MaelstromEncoder::new(1, &[1]);
    let mut source = Packet::new(0);
    enc.protect_symbol(&mut source).unwrap();
    let repair = enc.generate_rs().unwrap().remove(0);
    let mut out = Vec::new();
    let mut reports = Vec::new();
    assert_eq!(
        node.settle(repair.clone(), Err(Error::TooOldEquation), &mut out, &mut reports),
        Ok(())
    );
    assert_eq!(
        node.settle(repair.clone(), Err(Error::UnusedRepair), &mut out, &mut reports),
        Ok(())
    );
    assert!(out.is_empty());
    assert_eq!(
        node.settle(repair, Err(Error::FecDecoder("BadMetadata".to_string())), &mut out, &mut reports),
        Err(Error::FecDecoder("BadMetadata".to_string()))
    );
    assert_eq!(
        node.settle(source, Err(Error::FecWrongMetadata), &mut out, &mut reports),
        Err(Error::FecWrongMetadata)
    );
    assert!(out.is_empty());
    assert_eq!(node.get_nb_recovered(), 0);
}

#[test]
fn dropper_goes_by_the_rule_of_its_oracle() {
    let mut scheduler = SpecificDropScheduler::new(5);
    scheduler.add_to_drop(&[1, 3]);
    let mut dropper = Dropper::new(Box::new(scheduler));
    dropper.recv((0..7).map(Packet::new).collect()).unwrap();
    let ids: Vec<u64> = dropper.forw().unwrap().iter().map(|p| p.get_id()).collect();
    assert_eq!(ids, vec![0, 2, 4, 5]);
    let mut dropper = Dropper::new(DropOracle::Constant(ConstantDropScheduler::new(3)));
    dropper.recv((0..7).map(Packet::new).collect()).unwrap();
    let ids: Vec<u64> = dropper.forw().unwrap().iter().map(|p| p.get_id()).collect();
    assert_eq!(ids, vec![0, 1, 3, 4, 6]);
    let mut dropper = Dropper::new(DropOracle::Never(NoDropScheduler {}));
    dropper.recv((0..3).map(Packet::new).collect()).unwrap();
    assert_eq!(dropper.forw().unwrap().len(), 3);
    let mut dropper = Dropper::new_simple();
    dropper.recv((0..3).map(Packet::new).collect()).unwrap();
    assert_eq!(dropper.forw().unwrap().len(), 3);
    assert_eq!(dropper.get_nb_dropped(), 0);
}
