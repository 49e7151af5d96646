use fec_simulator::fec::tart::{
    copy_bytes, source_symbol_metadata_from_u64, source_symbol_metadata_to_u64, TartDecoder,
    TartEncoder, TartFecScheduler, TartOutcome, WindowStepScheduler,
};
use fec_simulator::fec::{FecMetadata, FecRepairMetadata, FecSourceMetadata, SourceSymbolMetadata};
use fec_simulator::fec::FecDecoder;
use fec_simulator::node::decoder::{Decoder, DecoderFeedback};
use fec_simulator::node::dropper::Dropper;
use fec_simulator::{Error, Packet, Simulator};

/// Fires whenever the gap since the last repair symbol reaches a limit
/// that feedback can change.
struct EveryOther {
    last: u64,
    gap: u64,
}

impl TartFecScheduler for EveryOther {
    fn should_generate_rs(&self, current: u64) -> bool {
        current.saturating_sub(self.last) >= self.gap
    }

    fn on_sent_rs(&mut self, current: u64) {
        self.last = current;
    }

    fn should_reset_up_to(&mut self, _current: u64) -> SourceSymbolMetadata {
        [0; 8]
    }

    fn recv_feedback(&mut self, nb_lost: u64, _nb_elems: u64) {
        self.gap = nb_lost.max(1);
    }

    fn label(&self) -> String {
        "every_other".to_string()
    }
}

#[test]
fn window_step_fires_every_step() {
    let mut s = WindowStepScheduler::new(100, 5);
    assert!(!s.should_generate_rs(4));
    assert!(s.should_generate_rs(5));
    s.on_sent_rs(5);
    assert!(!s.should_generate_rs(5));
    assert!(!s.should_generate_rs(9));
    assert!(s.should_generate_rs(10));
    assert_eq!(s.label(), "window_5");
}

#[test]
fn encoder_follows_its_scheduler() {
    let mut enc = TartEncoder::new(Box::new(EveryOther { last: 0, gap: 2 }), 10);
    assert!(!enc.should_send_rs(1));
    assert!(enc.should_send_rs(2));
    enc.on_sent_rs(2);
    assert!(!enc.should_send_rs(2));
    enc.recv_feedback(4, 10);
    assert!(!enc.should_send_rs(5));
    assert!(enc.should_send_rs(6));
    assert_eq!(enc.label(), "tart_every_other");
}

#[test]
fn window_step_names_the_edge_of_its_window() {
    let mut s = WindowStepScheduler::new(100, 5);
    assert_eq!(s.should_reset_up_to(260), [0, 0, 0, 0, 0, 0, 0, 160]);
    assert_eq!(s.should_reset_up_to(7), [0; 8]);
    s.recv_feedback(3, 4);
    assert!(s.should_generate_rs(5));
}

#[test]
fn names_spell_numbers() {
    assert_eq!(source_symbol_metadata_from_u64(0x0102_0304_0506_0708), [1, 2, 3, 4, 5, 6, 7, 8]);
    assert_eq!(source_symbol_metadata_to_u64([0, 0, 0, 0, 0, 0, 1, 0]), 256);
    for n in [0u64, 9, u64::MAX, 1 << 40] {
        assert_eq!(source_symbol_metadata_to_u64(source_symbol_metadata_from_u64(n)), n);
    }
    assert_eq!(copy_bytes(&vec![4, 5, 6]), vec![4, 5, 6]);
}

#[test]
fn encoder_marks_and_retires() {
    let mut enc = TartEncoder::with_window_step(WindowStepScheduler::new(10, 5), 10);
    assert_eq!(enc.kernel_window(), 5000);
    let mut pkt = Packet::new(3);
    assert_eq!(enc.protect_symbol(&mut pkt, [0, 0, 0, 0, 0, 0, 0, 3]), Ok(()));
    assert!(matches!(
        pkt.get_fec(),
        Some(FecMetadata::Source(FecSourceMetadata::Tart([0, 0, 0, 0, 0, 0, 0, 3])))
    ));
    assert_eq!(enc.protect_symbol(&mut pkt, [0; 8]), Err(Error::FecDoubleMetadata));
    assert_eq!(enc.next_id([0, 0, 0, 0, 0, 0, 2, 1]), 513);
    assert!(!enc.should_reset(9));
    assert!(enc.should_reset(10));
    assert_eq!(enc.reset(10), None);
    assert_eq!(enc.reset(11), Some([0, 0, 0, 0, 0, 0, 0, 1]));
    assert_eq!(enc.reset(300), Some([0, 0, 0, 0, 0, 0, 1, 34]));
    assert_eq!(enc.label(), "tart_window_5");
}

#[test]
fn encoder_wraps_what_the_kernel_answers() {
    let mut enc = TartEncoder::with_window_step(WindowStepScheduler::new(10, 5), 10);
    assert!(enc.should_send_rs(5));
    let pkt = enc.generate_rs(5, Ok(vec![9, 8, 7]), 5).unwrap();
    assert_eq!(pkt.get_id(), 5);
    assert_eq!(pkt.get_data(), &Vec::<u8>::new());
    assert_eq!(pkt.get_recovered(), None);
    match pkt.get_fec() {
        Some(FecMetadata::Repair(FecRepairMetadata::Tart(bytes))) => {
            assert_eq!(bytes, &vec![9, 8, 7])
        }
        _ => panic!("no repair symbol"),
    }
    // The scheduler has been told.
    assert!(!enc.should_send_rs(5));
    assert!(enc.should_send_rs(10));
    let failed = enc.generate_rs(10, Err("BufferTooSmall".to_string()), 10);
    assert_eq!(failed, Err(Error::FecEncoder("BufferTooSmall".to_string())));
    // The scheduler has been told nothing.
    assert!(enc.should_send_rs(10));
}

#[test]
fn decoder_hands_out_what_the_kernel_needs() {
    let dec = TartDecoder::new(10);
    assert_eq!(dec.kernel_window(), 5000);
    let mut enc = TartEncoder::with_window_step(WindowStepScheduler::new(10, 5), 10);
    let mut source = Packet::new(6);
    enc.protect_symbol(&mut source, [0, 0, 0, 0, 0, 0, 0, 6]).unwrap();
    let repair = enc.generate_rs(7, Ok(vec![1, 2, 3, 4]), 7).unwrap();
    assert_eq!(
        dec.recv_ss(&source),
        Ok(([0, 0, 0, 0, 0, 0, 0, 6], vec![0, 0, 0, 0, 0, 0, 0, 6]))
    );
    assert_eq!(dec.recv_rs(&repair), Ok(vec![1, 2, 3, 4]));
    assert_eq!(dec.recv_ss(&repair), Err(Error::FecWrongMetadata));
    assert_eq!(dec.recv_rs(&source), Err(Error::FecWrongMetadata));
    assert_eq!(dec.recv_ss(&Packet::new(1)), Err(Error::FecWrongMetadata));
    let mut other = Packet::new(2);
    other.add_fec_metadata(FecMetadata::Source(FecSourceMetadata::Maelstrom(2))).unwrap();
    assert_eq!(dec.recv_ss(&other), Err(Error::FecWrongMetadata));
}

#[test]
fn decoder_turns_answers_into_packets_and_errors() {
    let dec = TartDecoder::new(10);
    let decoded = TartOutcome::Decoded(vec![
        vec![0, 0, 0, 0, 0, 0, 0, 7],
        vec![0, 0, 0, 0, 0, 0, 0, 12],
    ]);
    let rebuilt = dec.recovered(decoded, 9).unwrap();
    assert_eq!(rebuilt.len(), 2);
    assert_eq!(rebuilt[0].get_id(), 7);
    assert_eq!(rebuilt[0].get_recovered(), Some(2));
    assert_eq!(rebuilt[1].get_id(), 12);
    assert_eq!(rebuilt[1].get_recovered(), Some(0));
    assert!(rebuilt[1].get_fec().is_none());
    assert_eq!(dec.recovered(TartOutcome::Decoded(vec![]), 9), Ok(vec![]));
    assert_eq!(dec.recovered(TartOutcome::UnusedRepair, 9), Err(Error::UnusedRepair));
    assert_eq!(
        dec.recovered(TartOutcome::Failed("BadMetadata".to_string()), 9),
        Err(Error::FecDecoder("BadMetadata".to_string()))
    );
}

#[test]
fn fixed_step_emits_the_same_for_the_same_run() {
    let run = |ids: &[u64]| -> Vec<u64> {
        let mut enc = TartEncoder::with_window_step(WindowStepScheduler::new(100, 5), 100);
        let mut sent = Vec::new();
        for id in ids {
            while enc.should_send_rs(*id) {
                enc.generate_rs(*id, Ok(vec![0; 28]), *id).unwrap();
                sent.push(*id);
            }
        }
        sent
    };
    let ids: Vec<u64> = (1..=100).collect();
    let first = run(&ids);
    assert_eq!(first, (1..=20).map(|k| 5 * k).collect::<Vec<u64>>());
    assert_eq!(run(&ids), first);
    assert_eq!(run(&[3, 4, 9, 10, 13, 14, 30]), vec![9, 14, 30]);
}

#[test]
fn encoder_takes_any_scheduler_boxed() {
    let mut enc = TartEncoder::new(Box::new(WindowStepScheduler::new(10, 3)), 10);
    assert!(!enc.should_send_rs(2));
    assert!(enc.should_send_rs(3));
    enc.on_sent_rs(3);
    assert!(!enc.should_send_rs(5));
    assert_eq!(enc.label(), "tart_window_3");
}

/// Drops each packet with the same probability.
struct UniformDropScheduler {
    rng: rand::rngs::SmallRng,
    rate: f64,
}

impl fec_simulator::drop::DropScheduler for UniformDropScheduler {
    fn should_drop(&mut self) -> bool {
        rand::Rng::gen_bool(&mut self.rng, self.rate)
    }
}

/// The sliding-window pipeline, with a stand-in for the kernel that numbers
/// symbols, serialises nothing and decodes nothing.
#[test]
fn fixed_step_over_a_lossy_link() {
    let mut simulator = Simulator::new();
    let rng = <rand::rngs::SmallRng as rand::SeedableRng>::seed_from_u64(1);
    let oracle: Box<dyn fec_simulator::drop::DropScheduler> =
        Box::new(UniformDropScheduler { rng, rate: 0.1 });
    simulator.set_dropper(Dropper::new(oracle));
    simulator.set_decoder(Decoder::new(FecDecoder::NoFec, Some(DecoderFeedback::new(500))));
    let mut tart = TartEncoder::with_window_step(WindowStepScheduler::new(100, 5), 100);
    let receiver = TartDecoder::new(100);
    let mut protected: usize = 0;
    for _ in 0..100 {
        let mut pkt = simulator.mint();
        let name = source_symbol_metadata_from_u64(pkt.get_id());
        assert_eq!(tart.protect_symbol(&mut pkt, name), Ok(()));
        protected += 1;
        let next_id = pkt.get_id() + 1;
        if tart.should_reset(protected) {
            assert_eq!(tart.reset(next_id), None);
        }
        let mut repairs = Vec::new();
        while tart.should_send_rs(next_id) {
            repairs.push(tart.generate_rs(next_id, Ok(vec![0; 28]), next_id).unwrap());
        }
        let through = simulator.send(pkt, Ok(repairs)).unwrap();
        let mut released = Vec::new();
        let mut reports = Vec::new();
        for pkt in through {
            let outcome = receiver.recovered(TartOutcome::Decoded(vec![]), pkt.get_id());
            assert_eq!(simulator.deliver(pkt, outcome, &mut released, &mut reports), Ok(()));
        }
        assert!(reports.is_empty());
        simulator.collect(released);
    }
    assert_eq!(simulator.get_encoder().get_nb_rs(), 20);
    assert_eq!(simulator.get_encoder().get_nb_ss(), 100);
    assert_eq!(simulator.get_dropper().get_nb_recv(), 120);
    assert_eq!(simulator.get_dropper().get_nb_dropped(), 11);
    assert_eq!(simulator.get_dropper().get_nb_ss_dropped(), 11);
    assert_eq!(simulator.get_decoder().get_nb_recovered(), 0);
    assert_eq!(
        simulator.get_sink().get_lost(100),
        vec![1, 23, 29, 31, 54, 61, 65, 67, 72, 89, 92]
    );
}

#[test]
fn a_failing_code_ends_the_tick() {
    let mut simulator = Simulator::new();
    let pkt = simulator.mint();
    let failed = Err(Error::FecEncoder("BufferTooSmall".to_string()));
    assert_eq!(simulator.send(pkt, failed), Err(Error::FecEncoder("BufferTooSmall".to_string())));
    assert_eq!(simulator.get_dropper().get_nb_recv(), 0);
    let pkt = simulator.mint();
    assert_eq!(pkt.get_id(), 1);
    let quiet = Err(Error::FecEncoder("NoSymbolToGenerate".to_string()));
    let through = simulator.send(pkt, quiet).unwrap();
    assert_eq!(through.len(), 1);
    assert_eq!(simulator.get_encoder().get_nb_ss(), 2);
}
