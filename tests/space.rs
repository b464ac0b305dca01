use quic_core::congestion::{CongestionAlgorithm, CongestionController, Epoch};
use quic_core::frame::{AckFrame, ConnFrame, ConnectionCloseFrame, MaxDataFrame, SpaceId};
use quic_core::pn::PacketNumber;
use quic_core::reader::FrameReader;
use quic_core::sndbuf::SendBuf;
use quic_core::space::{ArcSpace, Record};

#[test]
fn ack_echo_discipline() {
    let mut space = ArcSpace::with_crypto_stream(SpaceId::Initial, SendBuf::with_capacity(1000));
    for pn in [0u64, 1, 2] {
        space.on_rcvd_pn(pn);
    }
    let mut out = Vec::new();
    let (pn, pn_size, written) = space.read(&mut out, 1200, Some(0), 0);
    assert_eq!(pn, 0);
    assert_eq!(pn_size, 1);
    assert_eq!(written, out.len());
    // the packet holds an ACK of 0..=2
    let mut reader = FrameReader::new(out[pn_size..].to_vec());
    assert!(matches!(reader.next(), Some(Ok(_))));
    match &space.tx.inflight_packets[0] {
        Some(p) => assert!(matches!(p.payload[0], Record::Ack(2))),
        None => panic!("packet not recorded"),
    }
    // the peer acknowledges that packet: 0..=2 is no longer advertised
    space.on_ack(&AckFrame { largest: 0, delay: 0, first_range: 0, ranges: vec![], ecn: None });
    assert!(space.rcvd_pkt_records().ranges.is_empty());
    assert_eq!(space.rcvd_pkt_records().floor, Some(2));
    space.on_rcvd_pn(3);
    let mut out = Vec::new();
    space.read(&mut out, 1200, Some(0), 0);
    match &space.tx.inflight_packets[0] {
        Some(p) => assert!(matches!(p.payload[0], Record::Ack(3))),
        None => panic!("packet not recorded"),
    }
}

#[test]
fn space_sends_queued_frames_and_crypto() {
    let mut crypto = SendBuf::with_capacity(100);
    crypto.write(b"client hello");
    let mut space = ArcSpace::new(crypto);
    space.tx.upgrade();
    space.tx.write_conn_frame(ConnFrame::MaxData(MaxDataFrame { max_data: 5000 }));
    let mut out = Vec::new();
    let (pn, pn_size, written) = space.read(&mut out, 1200, None, 10);
    assert_eq!((pn, pn_size), (0, 1));
    assert_eq!(written, out.len());
    assert!(space.tx.sending_frames.is_empty());
    let mut reader = FrameReader::new(out[1..].to_vec());
    assert!(matches!(reader.next(), Some(Ok(_))));
    assert!(matches!(reader.next(), Some(Ok(_))));
    assert!(reader.next().is_none());
    // lost: the frame is queued again
    space.may_loss_pkt(0);
    assert_eq!(space.tx.sending_frames.len(), 1);
    let (next, encoded) = space.tx.next_pkt_no();
    assert_eq!(next, 1);
    assert_eq!(encoded, PacketNumber { size: 1, value: 1 });
}

#[test]
fn decode_pn_in_space() {
    let mut space = ArcSpace::with_crypto_stream(SpaceId::Handshake, SendBuf::with_capacity(10));
    space.on_rcvd_pn(0);
    assert_eq!(space.decode_pn(PacketNumber { size: 1, value: 1 }), Ok(1));
    assert!(space.decode_pn(PacketNumber { size: 1, value: 0 }).is_err());
}

#[test]
fn loss_detection_on_ack() {
    let mut cc = CongestionController::new(CongestionAlgorithm::Bbr);
    let t0 = 1_000_000;
    for pn in 1..=5 {
        cc.on_packet_sent(pn, Epoch::Initial, true, true, 1000, t0);
    }
    assert!(cc.get_congestion_window() >= 4800);
    let ack = AckFrame { largest: 5, delay: 0, first_range: 0, ranges: vec![], ecn: None };
    cc.on_acked(Epoch::Initial, &ack, t0 + 10_000);
    let remaining: Vec<u64> = cc.sent_packets(Epoch::Initial).iter().map(|p| p.pkt_num).collect();
    assert_eq!(remaining, vec![3, 4]);
    assert_eq!(cc.take_lost(), vec![(Epoch::Initial, 1), (Epoch::Initial, 2)]);
    assert_eq!(cc.rtt.latest_rtt, 10_000);
    assert!(cc.loss_detection_timer.is_some());
    // the loss time passes: 3 and 4 are lost by time
    let timer = cc.loss_detection_timer.unwrap();
    cc.on_loss_detection_timeout(timer);
    assert_eq!(cc.take_lost(), vec![(Epoch::Initial, 3), (Epoch::Initial, 4)]);
    assert!(cc.sent_packets(Epoch::Initial).is_empty());
}

#[test]
fn epochs_and_count() {
    assert_eq!(Epoch::count(), 3);
    assert_eq!(Epoch::epochs(Epoch::Handshake, Epoch::Data), vec![Epoch::Handshake, Epoch::Data]);
    assert_eq!(Epoch::epochs(Epoch::Data, Epoch::Initial), vec![]);
}

#[test]
fn lost_packet_requeues_frames_and_marks_crypto_lost() {
    let mut crypto = SendBuf::with_capacity(100);
    crypto.write(b"hello");
    let mut space = ArcSpace::with_crypto_stream(SpaceId::Initial, crypto);
    let mut out = Vec::new();
    space.read(&mut out, 1200, None, 0);
    assert_eq!(space.tx.crypto_stream.runs(), vec![(5, quic_core::sndbuf::Color::Flighting)]);
    space.may_loss_pkt(0);
    assert_eq!(space.tx.crypto_stream.runs(), vec![(5, quic_core::sndbuf::Color::Lost)]);
    assert!(space.tx.inflight_packets.is_empty());
    // the lost bytes go out again in the next packet
    let mut out = Vec::new();
    let (pn, _, written) = space.read(&mut out, 1200, None, 0);
    assert_eq!(pn, 1);
    assert!(written > 5);
}

#[test]
fn data_space_sends_stream_data() {
    let mut space = ArcSpace::new(SendBuf::with_capacity(10));
    space.tx.data_streams.open(4, 100);
    assert_eq!(space.tx.data_streams.streams[0].1.write(b"stream bytes"), 12);
    let mut out = Vec::new();
    let (pn, pn_size, written) = space.read(&mut out, 1200, None, 0);
    assert_eq!(pn, 0);
    let mut reader = FrameReader::new(out[pn_size..written].to_vec());
    match reader.next() {
        Some(Ok(quic_core::frame::Frame::Data(quic_core::frame::DataFrame::Stream(f), data))) => {
            assert_eq!((f.id, f.offset, f.length), (4, 0, 12));
            assert_eq!(data, b"stream bytes".to_vec());
        }
        other => panic!("unexpected {:?}", other),
    }
    // acknowledged: the stream's bytes count as received
    space.on_ack(&AckFrame { largest: 0, delay: 0, first_range: 0, ranges: vec![], ecn: None });
    assert!(space.data_streams().stream(4).is_some());
    let s = &mut space.tx.data_streams.streams[0].1;
    s.shutdown();
    let fin = s.try_send(4, 1200).unwrap();
    assert_eq!((fin.offset, fin.length, fin.flag & 1), (12, 0, 1));
    assert_eq!(s.send_state(), quic_core::outgoing::SendState::DataSent);
    // every byte was acknowledged by the ACK above
    assert!(s.ack_recv(0, 0));
    assert_eq!(s.send_state(), quic_core::outgoing::SendState::DataRecvd);
}

#[test]
fn close_only_packet_is_not_ack_eliciting() {
    let mut space = ArcSpace::new(SendBuf::with_capacity(10));
    space.tx.write_conn_frame(ConnFrame::Close(ConnectionCloseFrame { layer: 0, error_code: 1, frame_type: 0, reason: vec![] }));
    let mut out = Vec::new();
    space.read(&mut out, 1200, None, 0);
    match &space.tx.inflight_packets[0] {
        Some(p) => assert!(!p.is_ack_eliciting),
        None => panic!("packet not recorded"),
    }
    space.tx.write_conn_frame(ConnFrame::MaxData(MaxDataFrame { max_data: 7 }));
    let mut out = Vec::new();
    space.read(&mut out, 1200, None, 0);
    match &space.tx.inflight_packets[1] {
        Some(p) => assert!(p.is_ack_eliciting),
        None => panic!("packet not recorded"),
    }
}
