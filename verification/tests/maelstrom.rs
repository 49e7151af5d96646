use fec_simulator::fec::maelstrom::{
    holds, smallest, Bin, DecoderAction, Equation, MaelstromDecoder, MaelstromEncoder,
};
use fec_simulator::fec::{FecMetadata, FecRepairMetadata, FecSourceMetadata};
use fec_simulator::word::word_from_be;
use fec_simulator::{Error, Packet};
use std::collections::HashMap;

/// The list that a repair symbol carries.
fn list_of(pkt: &Packet) -> Vec<u64> {
    match pkt.get_fec() {
        Some(FecMetadata::Repair(FecRepairMetadata::Maelstrom(info))) => info.get_ssid().clone(),
        _ => panic!("no repair symbol of the interleaved XOR code"),
    }
}

/// The number that a source symbol carries.
fn ssid_of(pkt: &Packet) -> u64 {
    match pkt.get_fec() {
        Some(FecMetadata::Source(FecSourceMetadata::Maelstrom(ssid))) => *ssid,
        _ => panic!("no source symbol of the interleaved XOR code"),
    }
}

/// Protects packets numbered from zero and returns all that goes out, in
/// order.
fn send(encoder: &mut MaelstromEncoder, count: u64) -> Vec<Packet> {
    let mut out = Vec::new();
    for id in 0..count {
        let mut pkt = Packet::new(id);
        assert_eq!(encoder.protect_symbol(&mut pkt), Ok(()));
        out.push(pkt);
        if encoder.should_generate_rs() {
            out.extend(encoder.generate_rs().unwrap());
        }
    }
    out
}

#[test]
fn encoder_numbers_packets_in_order() {
    let mut encoder = MaelstromEncoder::new(4, &[1, 3]);
    for id in [7u64, 3, 9] {
        let mut pkt = Packet::new(id);
        assert_eq!(encoder.protect_symbol(&mut pkt), Ok(()));
        assert_eq!(pkt.get_id(), id);
    }
    let mut first = Packet::new(0);
    let mut fresh = MaelstromEncoder::new(4, &[1, 3]);
    fresh.protect_symbol(&mut first).unwrap();
    assert_eq!(ssid_of(&first), 0);
    let mut second = Packet::new(41);
    fresh.protect_symbol(&mut second).unwrap();
    assert_eq!(ssid_of(&second), 1);
}

#[test]
fn encoder_refuses_a_packet_twice() {
    let mut encoder = MaelstromEncoder::new(2, &[1]);
    let mut pkt = Packet::new(0);
    assert_eq!(encoder.protect_symbol(&mut pkt), Ok(()));
    assert_eq!(encoder.protect_symbol(&mut pkt), Err(Error::FecDoubleMetadata));
    assert_eq!(ssid_of(&pkt), 0);
    // The refused packet used up no number.
    let mut next = Packet::new(1);
    assert_eq!(encoder.protect_symbol(&mut next), Ok(()));
    assert_eq!(ssid_of(&next), 1);
}

#[test]
fn bins_fire_when_full_layer_by_layer() {
    let mut encoder = MaelstromEncoder::new(2, &[1, 2]);
    assert!(!encoder.should_generate_rs());
    let out = send(&mut encoder, 4);
    // s0, s1, R[0,1], s2, R[0,2], s3, R[2,3], R[1,3]
    assert_eq!(out.len(), 8);
    let repairs: Vec<&Packet> =
        out.iter().filter(|p| matches!(p.get_fec(), Some(FecMetadata::Repair(_)))).collect();
    assert_eq!(repairs.len(), 4);
    assert_eq!(list_of(repairs[0]), vec![0, 1]);
    assert_eq!(list_of(repairs[1]), vec![0, 2]);
    assert_eq!(list_of(repairs[2]), vec![2, 3]);
    assert_eq!(list_of(repairs[3]), vec![1, 3]);
    assert!(matches!(out[2].get_fec(), Some(FecMetadata::Repair(_))));
    assert!(matches!(out[6].get_fec(), Some(FecMetadata::Repair(_))));
    assert!(matches!(out[7].get_fec(), Some(FecMetadata::Repair(_))));
    assert_eq!(encoder.get_nb_rs(), 4);
    assert!(!encoder.should_generate_rs());
}

#[test]
fn repair_sums_all_that_it_lists() {
    let mut encoder = MaelstromEncoder::new(2, &[1, 2]);
    let out = send(&mut encoder, 4);
    // s0, s1, R[0,1], s2, R[0,2], s3, R[2,3], R[1,3]
    assert_eq!(out[2].get_id(), 0 ^ 1);
    assert_eq!(out[2].get_data(), &vec![0, 0, 0, 0, 0, 0, 0, 1]);
    assert_eq!(out[4].get_id(), 0 ^ 2);
    assert_eq!(out[6].get_id(), 2 ^ 3);
    assert_eq!(out[6].get_data(), &vec![0, 0, 0, 0, 0, 0, 0, 1]);
    // Packet 1 has left the window when the bin of the odd numbers fires;
    // the repair symbol sums it all the same.
    assert_eq!(out[7].get_id(), 1 ^ 3);
    assert_eq!(out[7].get_data(), &vec![0, 0, 0, 0, 0, 0, 0, 2]);
    assert_eq!(out[7].get_recovered(), None);
}

#[test]
fn repair_cancels_against_its_symbols() {
    let mut encoder = MaelstromEncoder::new(3, &[1, 2, 5]);
    let out = send(&mut encoder, 40);
    let sources: Vec<&Packet> =
        out.iter().filter(|p| matches!(p.get_fec(), Some(FecMetadata::Source(_)))).collect();
    let mut seen = 0;
    for repair in out.iter().filter(|p| matches!(p.get_fec(), Some(FecMetadata::Repair(_)))) {
        let mut sum = word_from_be(repair.get_data());
        for ssid in list_of(repair) {
            sum ^= word_from_be(sources[ssid as usize].get_data());
        }
        assert_eq!(sum, 0);
        seen += 1;
    }
    // 13 from the single bin, 12 from the two bins, 10 from the five.
    assert_eq!(seen, 35);
}

#[test]
fn repair_lists_a_window_of_one_class() {
    let sizes = [1u64, 2, 5];
    let mut encoder = MaelstromEncoder::new(3, &sizes);
    let out = send(&mut encoder, 40);
    let mut lists: Vec<Vec<u64>> = Vec::new();
    for repair in out.iter().filter(|p| matches!(p.get_fec(), Some(FecMetadata::Repair(_)))) {
        let list = list_of(repair);
        assert_eq!(list.len(), 3);
        assert!(sizes.iter().any(|size| list.iter().all(|ssid| ssid % size == list[0] % size)));
        lists.push(list);
    }
    // The first round of each layer: the single bin, the two bins, the
    // first of the five.
    assert_eq!(lists[0], vec![0, 1, 2]);
    assert_eq!(lists[1], vec![0, 2, 4]);
    assert_eq!(lists[2], vec![3, 4, 5]);
    assert_eq!(lists[3], vec![1, 3, 5]);
    assert!(lists.contains(&vec![0, 5, 10]));
    assert!(lists.contains(&vec![4, 9, 14]));
    // The lists of one layer share no symbol: every number below 39 is on
    // the single bin's lists once, and on no more than three lists in all.
    for ssid in 0..39u64 {
        let on = lists.iter().filter(|list| list.contains(&ssid)).count();
        assert!(on >= 1 && on <= 3);
    }
}

#[test]
fn empty_window_fires_every_bin_at_once() {
    let mut encoder = MaelstromEncoder::new(0, &[2]);
    assert!(encoder.should_generate_rs());
    let repairs = encoder.generate_rs().unwrap();
    assert_eq!(repairs.len(), 2);
    assert_eq!(list_of(&repairs[0]), Vec::<u64>::new());
    assert_eq!(repairs[0].get_id(), 0);
    assert_eq!(encoder.get_nb_rs(), 2);
}

#[test]
fn encoder_label_lists_layers_and_window() {
    assert_eq!(MaelstromEncoder::new(100, &[1, 20, 40]).label(), "maelstrom_1_20_40_100");
    assert_eq!(MaelstromEncoder::new(8, &[12]).label(), "maelstrom_12_8");
    assert_eq!(MaelstromEncoder::new(0, &[]).label(), "maelstrom__0");
}

#[test]
fn bin_counts_its_repairs() {
    let mut bin = Bin::new(2);
    assert!(!bin.should_generate_rs());
    assert!(bin.generate_rs().is_none());
    bin.file(4, 0x10);
    // A symbol is filed once.
    bin.file(4, 0x10);
    assert!(!bin.should_generate_rs());
    bin.file(6, 0x03);
    assert!(bin.should_generate_rs());
    let repair = bin.generate_rs().unwrap();
    assert_eq!(repair.get_id(), 0x13);
    assert_eq!(list_of(&repair), vec![4, 6]);
    assert_eq!(bin.get_nb_rs(), 1);
    assert!(!bin.should_generate_rs());
    bin.file(8, 0x05);
    bin.file(9, 0x05);
    assert_eq!(bin.generate_rs().unwrap().get_id(), 0);
}

#[test]
fn searches() {
    assert!(holds(&vec![3, 4], 4));
    assert!(!holds(&vec![3, 4], 5));
    assert_eq!(smallest(&vec![9, 2, 7]), Some(2));
    assert_eq!(smallest(&vec![]), None);
}

#[test]
fn decoder_rebuilds_the_payload_that_was_sent() {
    let mut encoder = MaelstromEncoder::new(2, &[1, 2]);
    let out = send(&mut encoder, 4);
    // s0, s1, R[0,1], s2, R[0,2], s3, R[2,3], R[1,3]; s1 and R[0,1] are lost.
    let mut decoder = MaelstromDecoder::new(40);
    for at in [0, 3, 4, 5, 6] {
        let rebuilt = match out[at].get_fec() {
            Some(FecMetadata::Source(_)) => decoder.recv_ss(&out[at]).unwrap(),
            _ => decoder.recv_rs(&out[at]).unwrap(),
        };
        assert!(rebuilt.is_empty());
    }
    let rebuilt = decoder.recv_rs(&out[7]).unwrap();
    assert_eq!(rebuilt.len(), 1);
    assert_eq!(rebuilt[0].get_id(), 1);
    assert_eq!(rebuilt[0].get_data(), &vec![0, 0, 0, 0, 0, 0, 0, 1]);
    // Dated from the repair symbol, which is numbered 1 ^ 3.
    assert_eq!(rebuilt[0].get_recovered(), Some(1));
}

#[test]
fn decoder_refuses_foreign_packets() {
    let mut decoder = MaelstromDecoder::new(10);
    assert_eq!(decoder.recv_ss(&Packet::new(0)), Err(Error::FecWrongMetadata));
    assert_eq!(decoder.recv_rs(&Packet::new(0)), Err(Error::FecWrongMetadata));
    let mut encoder = MaelstromEncoder::new(1, &[1]);
    let out = send(&mut encoder, 1);
    assert_eq!(decoder.recv_rs(&out[0]), Err(Error::FecWrongMetadata));
    assert_eq!(decoder.recv_ss(&out[1]), Err(Error::FecWrongMetadata));
    // A repair symbol for nothing is mistyped.
    let mut idle = MaelstromEncoder::new(0, &[1]);
    let nothing = idle.generate_rs().unwrap();
    assert_eq!(decoder.recv_rs(&nothing[0]), Err(Error::FecWrongMetadata));
}

#[test]
fn decoder_rebuilds_one_missing_symbol() {
    let mut encoder = MaelstromEncoder::new(3, &[1]);
    let out = send(&mut encoder, 3);
    // s0, s1, s2, R[0,1,2]; s1 is lost.
    let mut decoder = MaelstromDecoder::new(60);
    assert_eq!(decoder.recv_ss(&out[0]), Ok(vec![]));
    assert_eq!(decoder.recv_ss(&out[2]), Ok(vec![]));
    let rebuilt = decoder.recv_rs(&out[3]).unwrap();
    assert_eq!(rebuilt.len(), 1);
    assert_eq!(rebuilt[0].get_id(), 1);
    assert_eq!(rebuilt[0].get_data(), &vec![0, 0, 0, 0, 0, 0, 0, 1]);
    assert_eq!(ssid_of(&rebuilt[0]), 1);
    // Dated from the repair symbol, which is numbered 1 ^ 2.
    assert_eq!(rebuilt[0].get_recovered(), Some(2));
    assert_eq!(rebuilt[0], Packet::new(1));
    // The same repair symbol adds nothing now.
    assert_eq!(decoder.recv_rs(&out[3]), Ok(vec![]));
}

#[test]
fn decoder_keeps_an_equation_until_it_can_be_solved() {
    let mut encoder = MaelstromEncoder::new(3, &[1]);
    let out = send(&mut encoder, 3);
    let mut decoder = MaelstromDecoder::new(60);
    assert_eq!(decoder.recv_ss(&out[0]), Ok(vec![]));
    // Two symbols are missing: nothing can be rebuilt yet.
    assert_eq!(decoder.recv_rs(&out[3]), Ok(vec![]));
    let rebuilt = decoder.recv_ss(&out[2]).unwrap();
    assert_eq!(rebuilt.len(), 1);
    assert_eq!(rebuilt[0].get_id(), 1);
    assert_eq!(rebuilt[0].get_data(), &vec![0, 0, 0, 0, 0, 0, 0, 1]);
    // Dated from the source symbol that completed it: 2 - 1.
    assert_eq!(rebuilt[0].get_recovered(), Some(1));
    // The equation has gone: the late original rebuilds nothing.
    assert_eq!(decoder.recv_ss(&out[1]), Ok(vec![]));
}

#[test]
fn decoder_cascades_through_equations() {
    let mut encoder = MaelstromEncoder::new(2, &[1, 2]);
    let out = send(&mut encoder, 4);
    // s0, s1, R[0,1], s2, R[0,2], s3, R[2,3], R[1,3]
    let mut decoder = MaelstromDecoder::new(40);
    assert_eq!(decoder.recv_rs(&out[6]), Ok(vec![]));
    assert_eq!(decoder.recv_rs(&out[7]), Ok(vec![]));
    let rebuilt = decoder.recv_ss(&out[1]).unwrap();
    let ids: Vec<u64> = rebuilt.iter().map(|p| p.get_id()).collect();
    // The older equation needs 2 and 3; the younger one yields 3 first.
    assert_eq!(ids, vec![3, 2]);
    assert_eq!(rebuilt[0].get_recovered(), Some(0));
    assert_eq!(rebuilt[1].get_recovered(), Some(0));
}

#[test]
fn decoder_refuses_what_lies_behind_its_horizon() {
    let mut encoder = MaelstromEncoder::new(2, &[1]);
    let out = send(&mut encoder, 12);
    // s0 s1 R[0,1] s2 s3 R[2,3] ... s10 s11 R[10,11]
    let mut decoder = MaelstromDecoder::new(4);
    assert_eq!(decoder.recv_ss(&out[15]), Ok(vec![]));
    assert_eq!(ssid_of(&out[15]), 10);
    // 10 - 4 = 6: a list that starts at 4 is too old, one at 6 is not.
    assert_eq!(list_of(&out[8]), vec![4, 5]);
    assert_eq!(decoder.recv_rs(&out[8]), Err(Error::TooOldEquation));
    assert_eq!(list_of(&out[11]), vec![6, 7]);
    assert_eq!(decoder.recv_rs(&out[11]), Ok(vec![]));
}

#[test]
fn rebuilt_numbers_are_new_and_distinct() {
    let mut encoder = MaelstromEncoder::new(4, &[1, 4]);
    let out = send(&mut encoder, 32);
    let mut decoder = MaelstromDecoder::new(80);
    let mut known = Vec::new();
    let mut rebuilt_ids = Vec::new();
    for (at, pkt) in out.iter().enumerate() {
        // Lose a run of three source symbols and every fifth packet.
        let lost = (9..12).contains(&at) || at % 5 == 4;
        if lost {
            continue;
        }
        let rebuilt = match pkt.get_fec() {
            Some(FecMetadata::Source(_)) => {
                let r = decoder.recv_ss(pkt).unwrap();
                known.push(ssid_of(pkt));
                r
            }
            _ => decoder.recv_rs(pkt).unwrap(),
        };
        for p in rebuilt {
            assert!(!known.contains(&p.get_id()));
            assert!(!rebuilt_ids.contains(&p.get_id()));
            assert!(p.get_id() < 32);
            rebuilt_ids.push(p.get_id());
        }
    }
    assert!(!rebuilt_ids.is_empty());
}

#[test]
fn equation_classes() {
    let mut encoder = MaelstromEncoder::new(3, &[1]);
    let out = send(&mut encoder, 3);
    let equation = Equation::new(&out[3]).unwrap();
    assert_eq!(equation.get_min_ssid(), Some(0));
    let mut known: HashMap<u64, u64> = HashMap::new();
    assert_eq!(equation.action(&known), DecoderAction::Missing);
    assert!(equation.recover(&known, 9).is_none());
    known.insert(0, 0);
    known.insert(2, 2);
    assert_eq!(equation.action(&known), DecoderAction::Recover);
    let rebuilt = equation.recover(&known, 9).unwrap();
    assert_eq!(rebuilt.get_id(), 1);
    assert_eq!(rebuilt.get_recovered(), Some(8));
    known.insert(1, 1);
    assert_eq!(equation.action(&known), DecoderAction::Redundant);
    assert!(equation.recover(&known, 9).is_none());
    assert!(matches!(Equation::new(&out[0]), Err(Error::FecWrongMetadata)));
}
