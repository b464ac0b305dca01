use quic_core::congestion::{CongestionAlgorithm, CongestionController, Epoch};

const NOW: u64 = 1_000_000_000;

#[test]
fn test_on_packet_sent_multiple_packets() {
    let mut congestion = CongestionController::new(CongestionAlgorithm::Bbr);
    let now = NOW;
    for i in 1..=5 {
        congestion.on_packet_sent(i, Epoch::Initial, true, true, 1000, now);
    }
    assert_eq!(congestion.sent_packets(Epoch::Initial).len(), 5);
    for (i, sent) in congestion.sent_packets(Epoch::Initial).iter().enumerate() {
        assert_eq!(sent.pkt_num, i as u64 + 1);
        assert_eq!(sent.size, 1000);
        assert_eq!(sent.ack_eliciting, true);
        assert_eq!(sent.in_flight, true);
        assert_eq!(sent.time_lost, None);
        assert_eq!(sent.time_acked, None);
        assert_eq!(sent.time_sent, now);
    }
}

#[test]
fn test_on_packet_sent_different_epochs() {
    let mut congestion = CongestionController::new(CongestionAlgorithm::Bbr);
    let now = NOW;
    congestion.on_packet_sent(1, Epoch::Initial, true, true, 1000, now);
    congestion.on_packet_sent(2, Epoch::Handshake, true, true, 1000, now);
    congestion.on_packet_sent(3, Epoch::Data, true, true, 1000, now);
    assert_eq!(congestion.sent_packets(Epoch::Initial).len(), 1);
    assert_eq!(congestion.sent_packets(Epoch::Handshake).len(), 1);
    assert_eq!(congestion.sent_packets(Epoch::Data).len(), 1);
    for epoch in &[Epoch::Initial, Epoch::Handshake, Epoch::Data] {
        let sent = &congestion.sent_packets(*epoch)[0];
        assert_eq!(sent.pkt_num, epoch.index() as u64 + 1);
        assert_eq!(sent.size, 1000);
        assert_eq!(sent.ack_eliciting, true);
        assert_eq!(sent.in_flight, true);
        assert_eq!(sent.time_lost, None);
        assert_eq!(sent.time_acked, None);
        assert_eq!(sent.time_sent, now);
    }
}

#[test]
fn test_detect_and_remove_lost_packets() {
    let mut congestion = CongestionController::new(CongestionAlgorithm::Bbr);
    let now = NOW;
    let pn_space = Epoch::Initial;
    for i in 1..=5 {
        congestion.on_packet_sent(i, pn_space, true, true, 1000, now);
    }
    // ack 5: 1 and 2 are lost by reordering
    congestion.set_largest_acked(pn_space, 5);
    congestion.pop_last_sent(pn_space);
    let lost_packets = congestion.detect_and_remove_lost_packets(pn_space, now);
    assert_eq!(lost_packets.len(), 2);
    for (i, lost) in lost_packets.iter().enumerate() {
        assert_eq!(lost.pkt_num, i as u64 + 1);
    }
    assert_eq!(congestion.sent_packets(pn_space).len(), 2);
    // loss delay = 333 ms * 9 / 8
    let loss_packets = congestion.detect_and_remove_lost_packets(pn_space, now + 417_000);
    // 3 and 4 are lost by time
    assert_eq!(loss_packets.len(), 2);
    for (i, lost) in loss_packets.iter().enumerate() {
        assert_eq!(lost.pkt_num, i as u64 + 3);
    }
}
