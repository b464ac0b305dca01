use quic_core::frame::AckFrame;
use quic_core::pn::PacketNumber;
use quic_core::rcvd::{RcvPnError, RcvdPktRecords, MAX_RANGES};
use quic_core::rtt::Rtt;

#[test]
fn pn_truncation_rfc_example() {
    // RFC 9000, appendix A.2 and A.3
    let pn = PacketNumber::encode(0xac5c02, 0xabe8b3);
    assert_eq!(pn.size(), 2);
    let pn = PacketNumber::encode(0xace8fe, 0xabe8b3);
    assert_eq!(pn.size(), 3);
    let encoded = PacketNumber { size: 2, value: 0x9b32 };
    assert_eq!(encoded.decode(0xa82f30eb), 0xa82f9b32);
}

#[test]
fn pn_truncation_round_trip() {
    for (full, largest) in [(10u64, 0u64), (200, 100), (70000, 1000), (1 << 40, (1 << 40) - 5_000_000)] {
        let pn = PacketNumber::encode(full, largest);
        assert_eq!(pn.decode(largest + 1), full);
    }
}

#[test]
fn received_ranges_partition_inserted_set() {
    let mut r = RcvdPktRecords::new();
    for pn in [5u64, 1, 3, 2, 9, 4, 8] {
        r.on_rcvd_pn(pn);
    }
    assert_eq!(r.ranges, vec![(1, 5), (8, 9)]);
    assert_eq!(r.largest(), Some(9));
    assert!(r.contains(3));
    assert!(!r.contains(7));
    assert_eq!(r.decode_pn(PacketNumber { size: 1, value: 3 }), Err(RcvPnError::Duplicate(3)));
    assert_eq!(r.decode_pn(PacketNumber { size: 1, value: 10 }), Ok(10));
}

#[test]
fn received_ranges_evict_lowest() {
    let mut r = RcvdPktRecords::new();
    for i in 0..(MAX_RANGES as u64 + 1) {
        r.on_rcvd_pn(100 + 2 * i);
    }
    assert_eq!(r.ranges.len(), MAX_RANGES);
    assert_eq!(r.floor, Some(100));
    assert_eq!(r.ranges[0], (102, 102));
    r.on_rcvd_pn(100);
    r.on_rcvd_pn(99);
    assert_eq!(r.ranges[0], (102, 102));
    assert_eq!(r.decode_pn(PacketNumber { size: 2, value: 100 }), Err(RcvPnError::TooOld(100)));
    let ack = r.gen_ack_frame(0, 1500).unwrap();
    for (lo, _hi) in ack.ranges() {
        assert!(lo > 100);
    }
}

#[test]
fn ack_frame_generation_and_budget() {
    let mut r = RcvdPktRecords::new();
    for pn in [1u64, 2, 3, 6, 7, 10] {
        r.on_rcvd_pn(pn);
    }
    let ack = r.gen_ack_frame(5, 100).unwrap();
    assert_eq!(ack, AckFrame { largest: 10, delay: 5, first_range: 0, ranges: vec![(1, 1), (1, 2)], ecn: None });
    assert_eq!(ack.ranges(), vec![(10, 10), (6, 7), (1, 3)]);
    // room for the first range only: type, largest, delay, count, first range
    let ack = r.gen_ack_frame(5, 5).unwrap();
    assert_eq!(ack.ranges, vec![]);
    assert!(r.gen_ack_frame(5, 4).is_none());
    assert!(RcvdPktRecords::new().gen_ack_frame(0, 100).is_none());
}

#[test]
fn ack_echo_forgets_ranges() {
    let mut r = RcvdPktRecords::new();
    for pn in [1u64, 2, 3, 6, 7, 10] {
        r.on_rcvd_pn(pn);
    }
    r.inactivate_until(6);
    assert_eq!(r.ranges, vec![(7, 7), (10, 10)]);
    assert_eq!(r.floor, Some(6));
    assert_eq!(r.gen_ack_frame(0, 100).unwrap().ranges(), vec![(10, 10), (7, 7)]);
}

#[test]
fn rtt_first_and_second_sample() {
    let mut rtt = Rtt::new();
    assert_eq!(rtt.smoothed_rtt, 333_000);
    assert_eq!(rtt.loss_delay(), 374_625);
    rtt.update(100_000, 0, false);
    assert_eq!(rtt.smoothed_rtt, 100_000);
    assert_eq!(rtt.rttvar, 50_000);
    assert_eq!(rtt.min_rtt, 100_000);
    rtt.update(180_000, 30_000, true);
    // delay capped at 25 ms: adjusted 155 ms
    assert_eq!(rtt.latest_rtt, 155_000);
    assert_eq!(rtt.smoothed_rtt, (7 * 100_000 + 155_000) / 8);
    assert_eq!(rtt.rttvar, (3 * 50_000 + 55_000) / 4);
    // the adjusted sample never goes under the smallest sample
    rtt.update(101_000, 20_000, true);
    assert_eq!(rtt.latest_rtt, 100_000);
    assert_eq!(rtt.pto_base(), rtt.smoothed_rtt + 4 * rtt.rttvar);
}
