use quic_core::cid::ConnectionId;
use quic_core::long_header::{
    be_handshake, be_initial, be_retry, be_version_negotiation, put_handshake_header,
    put_initial_header, put_retry_header, Handshake, Header, Initial, LongHeaderBuilder, LongType, Retry,
};

#[test]
fn retry_header_reads_back() {
    let retry = Retry::from_slice(b"token", &[9u8; 16]);
    let h = LongHeaderBuilder::with_cid(ConnectionId::from_slice(&[1, 2]), ConnectionId::from_slice(&[3])).wrap(retry);
    let mut out = Vec::new();
    put_retry_header(&mut out, &h);
    // dcid length and bytes, scid length and bytes, then token, then the 16-byte tag
    assert_eq!(&out[..5], &[2, 1, 2, 1, 3][..]);
    let (n, r) = be_retry(&out[5..]).unwrap();
    assert_eq!(n, out.len() - 5);
    assert_eq!(r.token, b"token".to_vec());
    assert_eq!(r.integrity, vec![9u8; 16]);
    assert!(be_retry(&[0u8; 15]).is_err());
}

#[test]
fn initial_and_handshake_headers() {
    let h = LongHeaderBuilder::with_cid(ConnectionId::from_slice(&[7]), ConnectionId::empty())
        .wrap(Initial { token: vec![1, 2, 3], length: 300 });
    let mut out = Vec::new();
    put_initial_header(&mut out, &h);
    let (n, i) = be_initial(&out[3..]).unwrap();
    assert_eq!(n, out.len() - 3);
    assert_eq!(i.token, vec![1, 2, 3]);
    assert_eq!(i.length, 300);
    let h = LongHeaderBuilder::with_cid(ConnectionId::empty(), ConnectionId::empty()).wrap(Handshake { length: 70 });
    let mut out = Vec::new();
    put_handshake_header(&mut out, &h);
    assert_eq!(be_handshake(&out[2..]).unwrap().1.length, 70);
    let (n, vn) = be_version_negotiation(&[0, 0, 0, 1, 0xff, 0, 0, 0x1d]).unwrap();
    assert_eq!(n, 8);
    assert_eq!(vn.versions, vec![1, 0xff00001d]);
    assert!(be_version_negotiation(&[0, 0, 1]).is_err());
}

#[test]
fn builder_parses_by_type() {
    let b = || LongHeaderBuilder::with_cid(ConnectionId::from_slice(&[1, 2]), ConnectionId::from_slice(&[3]));
    match b().parse(LongType::Handshake, &[0x05, 0xff]) {
        Ok((n, Header::Handshake(h))) => {
            assert_eq!((n, h.specific.length), (1, 5));
            assert_eq!(h.dcid.as_bytes(), &[1u8, 2][..]);
        }
        other => panic!("unexpected {:?}", other),
    }
    match b().parse(LongType::VersionNegotiation, &[0, 0, 0, 1, 0, 0, 0, 2]) {
        Ok((8, Header::VN(h))) => assert_eq!(h.specific.versions, vec![1u32, 2]),
        other => panic!("unexpected {:?}", other),
    }
    assert!(b().parse(LongType::VersionNegotiation, &[0, 0, 1]).is_err());
    assert!(b().parse(LongType::Retry, &[0u8; 15]).is_err());
    assert!(matches!(b().parse(LongType::Retry, &[0u8; 16]), Ok((16, Header::Retry(_)))));
    assert!(b().parse(LongType::ZeroRtt, &[]).is_err());
}
