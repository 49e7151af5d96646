use fec_simulator::drop::constant::ConstantDropScheduler;
use fec_simulator::drop::specific::SpecificDropScheduler;
use fec_simulator::drop::DropScheduler;
use fec_simulator::fec::maelstrom::{MaelstromDecoder, MaelstromEncoder};
use fec_simulator::fec::{FecDecoder, FecEncoder};
use fec_simulator::node::decoder::Decoder;
use fec_simulator::node::dropper::Dropper;
use fec_simulator::node::encoder::Encoder;
use fec_simulator::Simulator;
use rand::rngs::SmallRng;
use rand::{Rng, SeedableRng};

/// The two-state burst model: a quiet state that keeps every packet and a
/// noisy state that drops every packet, with a chance to change state
/// before each packet.
struct GilbertEliotDropSheduler {
    noisy: bool,
    g2b: f64,
    b2g: f64,
    dg: f64,
    db: f64,
    rng: SmallRng,
}

impl GilbertEliotDropSheduler {
    fn new_simple(g2b: f64, b2g: f64, seed: u64) -> Self {
        Self { noisy: false, g2b, b2g, dg: 0.0, db: 1.0, rng: SmallRng::seed_from_u64(seed) }
    }
}

impl DropScheduler for GilbertEliotDropSheduler {
    fn should_drop(&mut self) -> bool {
        let (proba_change, proba_drop) =
            if self.noisy { (self.b2g, self.db) } else { (self.g2b, self.dg) };
        if self.rng.gen_bool(proba_change) {
            self.noisy = !self.noisy;
        }
        self.rng.gen_bool(proba_drop)
    }
}

#[test]
fn test_sim_no_nodes() {
    let mut simulator = Simulator::new();
    assert_eq!(simulator.run(100), Ok(()));

    assert_eq!(simulator.get_sink().get_lost(100), Vec::new());
    assert_eq!(simulator.get_sink().get_recovered(), Vec::new());
}

#[test]
fn maelstrom_without_loss_rebuilds_nothing() {
    let mut simulator = Simulator::new();
    let window = 8;
    let encoder = MaelstromEncoder::new(window, &[1, 4, 8]);
    simulator.set_encoder(Encoder::new(FecEncoder::Maelstrom(encoder)));
    let decoder = MaelstromDecoder::new(window * 20);
    simulator.set_decoder(Decoder::new(FecDecoder::Maelstrom(decoder), None));

    assert_eq!(simulator.run(100), Ok(()));

    assert_eq!(simulator.get_sink().get_lost(100), Vec::<u64>::new());
    assert_eq!(simulator.get_sink().get_recovered(), Vec::<u64>::new());
    // 12 from the single bin, 12 from the four bins, 8 from the eight.
    assert_eq!(simulator.get_encoder().get_nb_rs(), 32);
    assert_eq!(simulator.get_encoder().get_nb_ss(), 100);
    assert_eq!(simulator.get_dropper().get_nb_recv(), 132);
}

#[test]
fn test_maelstrom() {
    let mut simulator = Simulator::new();
    let window = 8;
    let interleaves_values = vec![1, 4, 8];

    let encoder = MaelstromEncoder::new(window, &interleaves_values);
    let encoder = Encoder::new(FecEncoder::Maelstrom(encoder));
    simulator.set_encoder(encoder);

    let drop_scheduler = ConstantDropScheduler::new(20);
    let dropper = Dropper::new(Box::new(drop_scheduler));
    simulator.set_dropper(dropper);

    let decoder = MaelstromDecoder::new(window * 20);
    let decoder = Decoder::new(FecDecoder::Maelstrom(decoder), None);
    simulator.set_decoder(decoder);

    assert_eq!(simulator.run(100), Ok(()));

    assert_eq!(
        simulator.get_sink().get_recovered().len(),
        simulator.get_dropper().get_nb_ss_dropped() as usize
    );
    assert!(!simulator.get_sink().get_recovered().is_empty());
}

#[test]
fn test_maelstrom_burst_two() {
    let mut simulator = Simulator::new();
    let window = 5;
    let interleaves_values = vec![1, 2];

    let encoder = MaelstromEncoder::new(window, &interleaves_values);
    let encoder = Encoder::new(FecEncoder::Maelstrom(encoder));
    simulator.set_encoder(encoder);

    let mut drop_scheduler = SpecificDropScheduler::new(100);
    drop_scheduler.add_to_drop(&[3, 4, 5, 6]);
    let mut dropper = Dropper::new(Box::new(drop_scheduler));
    dropper.activate_trace();
    simulator.set_dropper(dropper);

    let decoder = MaelstromDecoder::new(window * 20);
    let decoder = Decoder::new(FecDecoder::Maelstrom(decoder), None);
    simulator.set_decoder(decoder);

    assert_eq!(simulator.run(10), Ok(()));
    assert_eq!(
        simulator.get_sink().get_recovered().len(),
        simulator.get_dropper().get_nb_ss_dropped() as usize
    );
    assert!(!simulator.get_sink().get_recovered().is_empty());
    let mut recovered = simulator.get_sink().get_recovered();
    recovered.sort();
    assert_eq!(recovered, vec![3, 4, 5]);
}

#[test]
fn test_maelstrom_burst_three() {
    let mut simulator = Simulator::new();
    let window = 10;
    let interleaves_values = vec![1, 3];

    let encoder = MaelstromEncoder::new(window, &interleaves_values);
    let encoder = Encoder::new(FecEncoder::Maelstrom(encoder));
    simulator.set_encoder(encoder);

    let mut drop_scheduler = SpecificDropScheduler::new(30);
    drop_scheduler.add_to_drop(&[3, 4, 5]);
    let mut dropper = Dropper::new(Box::new(drop_scheduler));
    dropper.activate_trace();
    simulator.set_dropper(dropper);

    let decoder = MaelstromDecoder::new(window * 20);
    let decoder = Decoder::new(FecDecoder::Maelstrom(decoder), None);
    simulator.set_decoder(decoder);

    assert_eq!(simulator.run(29), Ok(()));
    let mut recovered = simulator.get_sink().get_recovered();
    recovered.sort();
    assert_eq!(
        simulator.get_sink().get_recovered().len(),
        simulator.get_dropper().get_nb_ss_dropped() as usize
    );
    assert!(!simulator.get_sink().get_recovered().is_empty());
}

#[test]
fn test_maelstrom_burst_ten() {
    let mut simulator = Simulator::new();
    let window = 10;
    let interleaves_values = vec![1, 10];

    let encoder = MaelstromEncoder::new(window, &interleaves_values);
    let encoder = Encoder::new(FecEncoder::Maelstrom(encoder));
    simulator.set_encoder(encoder);

    let mut drop_scheduler = SpecificDropScheduler::new(100000);
    drop_scheduler.add_to_drop(&(0..11).map(|i| i + 4).collect::<Vec<_>>());
    let mut dropper = Dropper::new(Box::new(drop_scheduler));
    dropper.activate_trace();
    simulator.set_dropper(dropper);

    let decoder = MaelstromDecoder::new(window * 20);
    let decoder = Decoder::new(FecDecoder::Maelstrom(decoder), None);
    simulator.set_decoder(decoder);

    assert_eq!(simulator.run(100), Ok(()));
    let mut recovered = simulator.get_sink().get_recovered();
    recovered.sort();
    assert_eq!(
        simulator.get_sink().get_recovered().len(),
        simulator.get_dropper().get_nb_ss_dropped() as usize
    );
    assert!(!simulator.get_sink().get_recovered().is_empty());
}

/// With this oracle and seed the link drops runs of 11 and of 14 packets
/// on end. A layer of ten bins spreads at most ten consecutive symbols over
/// distinct bins, and each bin can rebuild one, so not every dropped source
/// symbol can be rebuilt here and the two counts cannot be equal: of the 44
/// dropped, 15 are rebuilt and 29 are lost. What holds is that every dropped
/// source symbol is either rebuilt, once, or lost.
#[test]
fn test_maelstrom_burst_ge() {
    let mut simulator = Simulator::new();
    let window = 10;
    let interleaves_values = vec![1, 10];

    let encoder = MaelstromEncoder::new(window, &interleaves_values);
    let encoder = Encoder::new(FecEncoder::Maelstrom(encoder));
    simulator.set_encoder(encoder);

    let drop_scheduler: Box<dyn DropScheduler> =
        Box::new(GilbertEliotDropSheduler::new_simple(0.01, 0.2, 1));
    let mut dropper = Dropper::new(drop_scheduler);
    dropper.activate_trace();
    simulator.set_dropper(dropper);

    let decoder = MaelstromDecoder::new(window * 20);
    let decoder = Decoder::new(FecDecoder::Maelstrom(decoder), None);
    simulator.set_decoder(decoder);

    assert_eq!(simulator.run(1000), Ok(()));

    assert_eq!(simulator.get_encoder().get_nb_rs(), 200);
    let recovered = simulator.get_sink().get_recovered();
    let lost = simulator.get_sink().get_lost(1000);
    let dropped = simulator.get_dropper().get_nb_ss_dropped() as usize;
    assert_eq!(dropped, 44);
    assert_eq!(recovered.len(), 15);
    assert_eq!(lost.len(), 29);
    assert!(simulator.get_sink().get_duplicates().is_empty());
    let mut dropped_ids = simulator.get_dropper().get_dropped_ss().unwrap();
    dropped_ids.sort();
    let mut accounted: Vec<u64> = recovered.iter().chain(lost.iter()).copied().collect();
    accounted.sort();
    assert_eq!(accounted, dropped_ids);
}


/// A burst of ten source symbols, one to each bin of the wide layer, is
/// rebuilt whole: the eleventh drop falls on a repair symbol.
#[test]
fn burst_of_ten_is_rebuilt_whole() {
    let mut simulator = Simulator::new();
    let window = 10;
    let encoder = MaelstromEncoder::new(window, &[1, 10]);
    simulator.set_encoder(Encoder::new(FecEncoder::Maelstrom(encoder)));
    let mut drop_scheduler = SpecificDropScheduler::new(100000);
    drop_scheduler.add_to_drop(&(4..15).collect::<Vec<u64>>());
    simulator.set_dropper(Dropper::new(Box::new(drop_scheduler)));
    let decoder = MaelstromDecoder::new(window * 20);
    simulator.set_decoder(Decoder::new(FecDecoder::Maelstrom(decoder), None));

    assert_eq!(simulator.run(100), Ok(()));
    assert_eq!(simulator.get_dropper().get_nb_ss_dropped(), 10);
    let mut recovered = simulator.get_sink().get_recovered();
    recovered.sort();
    assert_eq!(recovered, (4..14).collect::<Vec<u64>>());
    assert_eq!(simulator.get_sink().get_lost(100), Vec::<u64>::new());
    assert!(simulator.get_sink().get_duplicates().is_empty());
}
