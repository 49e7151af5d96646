use fec_simulator::fec::{FecMetadata, FecSourceMetadata};
use fec_simulator::word::{push_decimal, word_from_be, word_to_be};
use fec_simulator::{same_bytes, Error, Packet};
use std::collections::HashSet;

#[test]
fn payload_spells_the_number() {
    let pkt = Packet::new(0x0102_0304_0506_0708);
    assert_eq!(pkt.get_id(), 0x0102_0304_0506_0708);
    assert_eq!(pkt.get_data(), &vec![1, 2, 3, 4, 5, 6, 7, 8]);
    assert!(pkt.get_fec().is_none());
    assert_eq!(pkt.get_recovered(), None);
}

#[test]
fn words_and_bytes() {
    assert_eq!(word_to_be(258), vec![0, 0, 0, 0, 0, 0, 1, 2]);
    assert_eq!(word_to_be(u64::MAX), vec![255; 8]);
    assert_eq!(word_from_be(&vec![0, 0, 0, 0, 0, 0, 1, 2]), 258);
    assert_eq!(word_from_be(&vec![0x80, 0, 0, 0, 0, 0, 0, 0]), 1 << 63);
    for x in [0u64, 1, 255, 256, 0xdead_beef_0bad_cafe] {
        assert_eq!(word_from_be(&word_to_be(x)), x);
        assert_eq!(word_to_be(x), x.to_be_bytes().to_vec());
    }
}

#[test]
fn decimal_digits() {
    for n in [0u64, 7, 10, 99, 100, 12345, u64::MAX] {
        let mut s = String::from("n=");
        push_decimal(&mut s, n);
        assert_eq!(s, format!("n={}", n));
    }
}

#[test]
fn recovered_distance_stops_at_zero() {
    assert_eq!(Packet::new_recovered(3, 10).get_recovered(), Some(7));
    assert_eq!(Packet::new_recovered(3, 3).get_recovered(), Some(0));
    assert_eq!(Packet::new_recovered(10, 3).get_recovered(), Some(0));
    assert_eq!(Packet::new_recovered(10, 3).get_data(), &vec![0, 0, 0, 0, 0, 0, 0, 10]);
}

#[test]
fn metadata_is_set_once() {
    let mut pkt = Packet::new(4);
    let first = FecMetadata::Source(FecSourceMetadata::Maelstrom(9));
    assert!(first.source().is_some());
    assert!(first.repair().is_none());
    assert_eq!(pkt.add_fec_metadata(first), Ok(()));
    let second = FecMetadata::Source(FecSourceMetadata::Maelstrom(1));
    assert_eq!(pkt.add_fec_metadata(second), Err(Error::FecDoubleMetadata));
    assert!(matches!(
        pkt.get_fec(),
        Some(FecMetadata::Source(FecSourceMetadata::Maelstrom(9)))
    ));
}

#[test]
fn equality_looks_at_number_and_payload() {
    let mut marked = Packet::new(5);
    marked.add_fec_metadata(FecMetadata::Source(FecSourceMetadata::Maelstrom(0))).unwrap();
    assert_eq!(marked, Packet::new(5));
    assert_eq!(Packet::new_recovered(5, 9), Packet::new(5));
    assert_ne!(Packet::new(5), Packet::new(6));
    assert_ne!(Packet::default(), Packet::new(0));
    assert_eq!(Packet::default().get_data(), &Vec::<u8>::new());
    assert!(same_bytes(&vec![1, 2], &vec![1, 2]));
    assert!(!same_bytes(&vec![1, 2], &vec![1, 3]));
    assert!(!same_bytes(&vec![1, 2], &vec![1]));
    let mut set = HashSet::new();
    set.insert(marked);
    set.insert(Packet::new(5));
    set.insert(Packet::new(6));
    assert_eq!(set.len(), 2);
}
