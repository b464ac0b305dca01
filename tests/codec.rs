use quic_core::codec::{put_ack_frame, put_conn_frame, put_data_frame, put_pure_frame, put_stream_ctl_frame};
use quic_core::frame::{
    route, AckFrame, ConnFrame, ConnectionCloseFrame, CryptoFrame, DataFrame, Frame, FrameError,
    FrameType, MaxDataFrame, MaxStreamsFrame, PaddingFrame, PathChallengeFrame, PathFrame,
    PingFrame, PureFrame, ResetStreamFrame, SpaceId, StreamCtlFrame, StreamFrame,
};
use quic_core::reader::{be_frame, FrameReader};
use quic_core::varint::{get_varint, put_varint, varint_size, VarInt, VARINT_MAX};

#[test]
fn test_read_padding_frame() {
    let buf = vec![0x00u8];
    let (consumed, frame) = be_frame(&buf, 0).unwrap();
    assert_eq!(consumed, 1);
    assert!(matches!(frame, Frame::Pure(PureFrame::Padding(PaddingFrame))));
}

#[test]
fn varint_round_trip_boundaries() {
    let cases: [(u64, usize); 8] = [
        (0, 1),
        (63, 1),
        (64, 2),
        (16383, 2),
        (16384, 4),
        (1073741823, 4),
        (1073741824, 8),
        (VARINT_MAX, 8),
    ];
    for (v, len) in cases {
        let mut out = Vec::new();
        put_varint(&mut out, v);
        assert_eq!(out.len(), len);
        assert_eq!(varint_size(v), len);
        out.push(0xff);
        assert_eq!(get_varint(&out, 0), Some((v, len)));
    }
}

#[test]
fn varint_known_encodings() {
    // RFC 9000, appendix A.1
    let mut out = Vec::new();
    put_varint(&mut out, 151288809941952652);
    assert_eq!(out, vec![0xc2, 0x19, 0x7c, 0x5e, 0xff, 0x14, 0xe8, 0x8c]);
    let mut out = Vec::new();
    put_varint(&mut out, 494878333);
    assert_eq!(out, vec![0x9d, 0x7f, 0x3e, 0x7d]);
    let mut out = Vec::new();
    put_varint(&mut out, 15293);
    assert_eq!(out, vec![0x7b, 0xbd]);
    assert_eq!(get_varint(&[0x25], 0), Some((37, 1)));
    assert_eq!(get_varint(&[0x40, 0x25], 0), Some((37, 2)));
}

#[test]
fn varint_incomplete_and_overflow() {
    assert_eq!(get_varint(&[], 0), None);
    assert_eq!(get_varint(&[0x80, 0x00, 0x01], 0), None);
    assert!(VarInt::from_u64(VARINT_MAX).is_ok());
    assert!(VarInt::from_u64(VARINT_MAX + 1).is_err());
    assert_eq!(VarInt::from_u64(300).unwrap().into_inner(), 300);
    assert_eq!(VarInt::from_u64(300).unwrap().encoding_size(), 2);
}

#[test]
fn frame_round_trip_max_data() {
    let mut out = Vec::new();
    put_conn_frame(&mut out, &ConnFrame::MaxData(MaxDataFrame { max_data: 100000 }));
    assert_eq!(out, vec![0x10, 0x80, 0x01, 0x86, 0xa0]);
    let (n, f) = be_frame(&out, 0).unwrap();
    assert_eq!(n, out.len());
    match f {
        Frame::Pure(PureFrame::Conn(ConnFrame::MaxData(m))) => assert_eq!(m.max_data, 100000),
        other => panic!("unexpected {:?}", other),
    }
}

#[test]
fn frame_round_trip_reset_stream() {
    let frame = StreamCtlFrame::ResetStream(ResetStreamFrame { stream_id: 4, app_error_code: 7, final_size: 1000 });
    let mut out = Vec::new();
    put_stream_ctl_frame(&mut out, &frame);
    let (n, f) = be_frame(&out, 0).unwrap();
    assert_eq!(n, out.len());
    match f {
        Frame::Pure(PureFrame::Stream(g)) => assert_eq!(g, frame),
        other => panic!("unexpected {:?}", other),
    }
}

#[test]
fn frame_round_trip_ack_with_ranges() {
    let ack = AckFrame { largest: 100, delay: 25, first_range: 3, ranges: vec![(1, 4), (0, 0)], ecn: None };
    let mut out = Vec::new();
    put_ack_frame(&mut out, &ack);
    let (n, f) = be_frame(&out, 0).unwrap();
    assert_eq!(n, out.len());
    match f {
        Frame::Pure(PureFrame::Ack(a)) => {
            assert_eq!(a, ack);
            // 97..=100, then gap 1 -> 90..=94, then gap 0 -> 88..=88
            assert_eq!(a.ranges(), vec![(97, 100), (90, 94), (88, 88)]);
        }
        other => panic!("unexpected {:?}", other),
    }
}

#[test]
fn frame_round_trip_close_and_path() {
    let mut out = Vec::new();
    put_conn_frame(&mut out, &ConnFrame::Close(ConnectionCloseFrame { layer: 0, error_code: 10, frame_type: 6, reason: b"bye".to_vec() }));
    put_pure_frame(&mut out, &PureFrame::Path(PathFrame::Challenge(PathChallengeFrame { data: 0x0102030405060708 })));
    put_pure_frame(&mut out, &PureFrame::Ping(PingFrame));
    let mut reader = FrameReader::new(out);
    match reader.next() {
        Some(Ok(Frame::Pure(PureFrame::Conn(ConnFrame::Close(c))))) => {
            assert_eq!(c.error_code, 10);
            assert_eq!(c.frame_type, 6);
            assert_eq!(c.reason, b"bye".to_vec());
        }
        other => panic!("unexpected {:?}", other),
    }
    match reader.next() {
        Some(Ok(Frame::Pure(PureFrame::Path(PathFrame::Challenge(p))))) => assert_eq!(p.data, 0x0102030405060708),
        other => panic!("unexpected {:?}", other),
    }
    assert!(matches!(reader.next(), Some(Ok(Frame::Pure(PureFrame::Ping(_))))));
    assert!(reader.next().is_none());
}

#[test]
fn frame_reader_truncated_last_frame() {
    let mut out = Vec::new();
    put_pure_frame(&mut out, &PureFrame::Ping(PingFrame));
    put_data_frame(&mut out, &DataFrame::Crypto(CryptoFrame { offset: 0, length: 5 }), b"hello");
    out.truncate(out.len() - 2);
    let mut reader = FrameReader::new(out);
    assert!(matches!(reader.next(), Some(Ok(Frame::Pure(PureFrame::Ping(_))))));
    assert!(matches!(reader.next(), Some(Err(FrameError::IncompleteData(FrameType::Crypto, 2)))));
    assert!(reader.next().is_none());
}

#[test]
fn frame_stream_data() {
    let mut out = Vec::new();
    let sf = StreamFrame { id: 4, offset: 10, length: 3, flag: 0x04 | 0x02 | 0x01 };
    put_data_frame(&mut out, &DataFrame::Stream(sf), b"abc");
    let (n, f) = be_frame(&out, 0).unwrap();
    assert_eq!(n, out.len());
    match f {
        Frame::Data(DataFrame::Stream(g), data) => {
            assert_eq!(g, sf);
            assert_eq!(data, b"abc".to_vec());
        }
        other => panic!("unexpected {:?}", other),
    }
}

#[test]
fn frame_errors() {
    assert!(matches!(be_frame(&[], 0), Err(FrameError::IncompleteType)));
    assert!(matches!(be_frame(&[0x1f], 0), Err(FrameError::InvalidType(0x1f))));
    assert!(matches!(be_frame(&[0x10], 0), Err(FrameError::IncompleteFrame(FrameType::MaxData))));
    let mut out = Vec::new();
    put_varint(&mut out, 0x12);
    put_varint(&mut out, (1u64 << 60) + 1);
    assert!(matches!(be_frame(&out, 0), Err(FrameError::ParseError(FrameType::MaxStreams(0)))));
}

#[test]
fn frame_type_values() {
    assert_eq!(FrameType::from_varint(0x0f), Ok(FrameType::Stream(7)));
    assert_eq!(FrameType::from_varint(0x1d), Ok(FrameType::ConnectionClose(1)));
    assert_eq!(FrameType::Stream(5).to_varint(), 0x0d);
    assert_eq!(FrameType::from_varint(0x40), Err(FrameError::InvalidType(0x40)));
}

#[test]
fn admissibility_routing() {
    let crypto = Frame::Data(DataFrame::Crypto(CryptoFrame { offset: 0, length: 0 }), Vec::new());
    assert!(matches!(route(crypto, SpaceId::ZeroRtt), Err(FrameError::WrongFrame(FrameType::Crypto, SpaceId::ZeroRtt))));
    let stream = Frame::Data(DataFrame::Stream(StreamFrame { id: 0, offset: 0, length: 0, flag: 2 }), Vec::new());
    assert!(matches!(route(stream, SpaceId::Initial), Err(FrameError::WrongFrame(FrameType::Stream(2), SpaceId::Initial))));
    let crypto = Frame::Data(DataFrame::Crypto(CryptoFrame { offset: 0, length: 0 }), Vec::new());
    assert!(route(crypto, SpaceId::Handshake).is_ok());
    assert!(FrameType::ConnectionClose(0).belongs_to(SpaceId::Initial));
    assert!(!FrameType::ConnectionClose(1).belongs_to(SpaceId::Initial));
    assert!(!FrameType::HandshakeDone.belongs_to(SpaceId::ZeroRtt));
    assert!(FrameType::HandshakeDone.belongs_to(SpaceId::OneRtt));
    let ms = StreamCtlFrame::MaxStreams(MaxStreamsFrame { dir: 1, max_streams: 5 });
    assert_eq!(ms.frame_type(), FrameType::MaxStreams(1));
}
