use fec_simulator::fec::{FecDecoder, FecMetadata, FecSourceMetadata};
use fec_simulator::node::decoder::{Decoder, DecoderFeedback};
use fec_simulator::{Error, Packet};

#[test]
fn feedback_counts_what_it_saw() {
    let mut feedback = DecoderFeedback::new(5);
    assert_eq!(feedback.nb_recv(), 0);
    for id in [0u64, 1, 2, 4] {
        assert_eq!(feedback.recv_ss(id), Ok(()));
        assert!(!feedback.should_send_feedback(id));
    }
    assert_eq!(feedback.nb_recv(), 4);
    // Seeing a symbol twice counts once.
    assert_eq!(feedback.recv_ss(2), Ok(()));
    assert_eq!(feedback.nb_recv(), 4);
    assert_eq!(feedback.recv_ss(5), Ok(()));
    assert!(feedback.should_send_feedback(5));
    assert_eq!(feedback.nb_since_last(5), 5);
    assert_eq!(feedback.nb_recv(), 5);
    feedback.reset(5);
    assert_eq!(feedback.nb_recv(), 0);
    assert_eq!(feedback.nb_since_last(9), 4);
    assert!(!feedback.should_send_feedback(9));
    assert!(feedback.should_send_feedback(10));
}

#[test]
fn feedback_refuses_what_lies_beyond_its_span() {
    let mut feedback = DecoderFeedback::new(5000);
    assert_eq!(feedback.recv_ss(1023), Ok(()));
    assert_eq!(feedback.recv_ss(1025), Err(Error::FeedbackIdTooBig));
    assert_eq!(feedback.nb_recv(), 1);
    assert!(feedback.fits(1023));
    assert!(!feedback.fits(1024));
    assert!(feedback.fits(1025));
    feedback.reset(100);
    assert!(!feedback.fits(99));
    assert!(feedback.fits(100));
    assert!(!feedback.fits(1124));
}

/// A source symbol as the decoder node sees it.
fn source(id: u64) -> Packet {
    let mut pkt = Packet::new(id);
    pkt.add_fec_metadata(FecMetadata::Source(FecSourceMetadata::Maelstrom(id))).unwrap();
    pkt
}

#[test]
fn node_reports_losses_every_round() {
    let mut decoder = Decoder::new(FecDecoder::NoFec, Some(DecoderFeedback::new(5)));
    let arrivals: Vec<Packet> = [0u64, 1, 2, 4, 5, 6, 7, 9, 10, 14, 15].map(source).into();
    assert_eq!(decoder.recv(arrivals), Ok(()));
    let (out, reports) = decoder.forw().unwrap();
    assert_eq!(out.len(), 11);
    assert!(out.iter().all(|p| p.get_fec().is_none()));
    // First round: 0..=5 seen but for 3, and the anchor's own mark counts.
    // Second round: 6..=10 but for 8. Third round: 11..=15, three missing.
    assert_eq!(reports, vec![(0, 5), (1, 5), (3, 5)]);
}

#[test]
fn node_stops_at_a_symbol_too_far() {
    let mut decoder = Decoder::new(FecDecoder::NoFec, Some(DecoderFeedback::new(5000)));
    assert_eq!(decoder.recv(vec![source(3), source(2000), source(4)]), Ok(()));
    assert_eq!(decoder.forw(), Err(Error::FeedbackIdTooBig));
    // The pass has ended: the queue is empty.
    assert_eq!(decoder.forw(), Ok((vec![], vec![])));
}

#[test]
fn node_stops_at_a_symbol_without_a_slot() {
    let mut decoder = Decoder::new(FecDecoder::NoFec, Some(DecoderFeedback::new(5000)));
    assert_eq!(decoder.recv(vec![source(1024)]), Ok(()));
    assert_eq!(decoder.forw(), Err(Error::FeedbackIdTooBig));
}

#[test]
fn node_reads_the_number_from_the_metadata() {
    let mut decoder = Decoder::new(FecDecoder::NoFec, Some(DecoderFeedback::new(3)));
    // The payloads spell other numbers than the symbols carry.
    let mut first = Packet::new(700);
    first.add_fec_metadata(FecMetadata::Source(FecSourceMetadata::Maelstrom(1))).unwrap();
    let mut second = Packet::default();
    second
        .add_fec_metadata(FecMetadata::Source(FecSourceMetadata::Tart([0, 0, 0, 0, 0, 0, 0, 4])))
        .unwrap();
    assert_eq!(decoder.recv(vec![first, second]), Ok(()));
    let (out, reports) = decoder.forw().unwrap();
    assert_eq!(out.len(), 2);
    // At symbol 4, of the four since the anchor two were seen.
    assert_eq!(reports, vec![(2, 4)]);
}
