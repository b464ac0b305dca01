use quic_core::outgoing::{new, CancelTooLate, SendState};
use quic_core::sndbuf::{Color, SendBuf};

#[test]
fn send_buffer_coloring() {
    let mut buf = SendBuf::with_capacity(1000);
    let data = vec![7u8; 100];
    assert_eq!(buf.write(&data), 100);
    assert_eq!(buf.wrote(), 100);
    assert_eq!(buf.runs(), vec![(100, Color::Pending)]);
    assert_eq!(buf.pick_up(40), Some((0, 40, false)));
    assert_eq!(buf.runs(), vec![(40, Color::Flighting), (100, Color::Pending)]);
    buf.ack(0, 40);
    assert_eq!(buf.runs(), vec![(40, Color::Recved), (100, Color::Pending)]);
    assert_eq!(buf.pick_up(100), Some((40, 60, false)));
    buf.may_loss(40, 100);
    assert_eq!(buf.runs(), vec![(40, Color::Recved), (100, Color::Lost)]);
    assert_eq!(buf.write(&[1, 2, 3]), 3);
    // lost bytes go ahead of pending ones
    assert_eq!(buf.pick_up(10), Some((40, 10, false)));
    assert_eq!(buf.runs(), vec![(40, Color::Recved), (50, Color::Flighting), (100, Color::Lost), (103, Color::Pending)]);
    assert!(!buf.is_all_acked());
}

#[test]
fn send_buffer_window() {
    let mut buf = SendBuf::with_capacity(10);
    assert_eq!(buf.write(&[0u8; 25]), 10);
    assert!(!buf.writeable());
    buf.update_window(5);
    assert!(!buf.writeable());
    buf.update_window(20);
    assert_eq!(buf.write(&[0u8; 25]), 10);
    assert_eq!(buf.runs(), vec![(20, Color::Pending)]);
    assert_eq!(buf.pick_up(0), None);
    buf.shutdown();
    assert_eq!(buf.pick_up(100), Some((0, 20, true)));
    assert!(buf.can_ack(0, 20));
    assert!(!buf.can_ack(0, 21));
    buf.ack(0, 20);
    assert!(buf.is_all_acked());
    assert_eq!(buf.data_at(0, 3), &[0u8, 0, 0][..]);
}

#[test]
fn stream_state_transitions() {
    let mut out = new(100);
    assert_eq!(out.send_state(), SendState::Ready);
    assert_eq!(out.write(b"hello"), 5);
    let f = out.try_send(4, 1200).unwrap();
    assert_eq!((f.id, f.offset, f.length), (4, 0, 5));
    assert_eq!(out.send_state(), SendState::Sending);
    assert!(out.is_cancelled_by_app().result.is_none());
    out.shutdown();
    assert_eq!(out.write(b"more"), 0);
    let fin = out.try_send(4, 1200).unwrap();
    assert_eq!((fin.id, fin.offset, fin.length, fin.flag), (4, 5, 0, 7));
    assert_eq!(out.send_state(), SendState::DataSent);
    assert!(out.try_send(4, 1200).is_none());
    assert!(out.ack_recv(0, 5));
    assert_eq!(out.send_state(), SendState::DataRecvd);
}

#[test]
fn stream_data_sent_then_recvd() {
    let mut out = new(100);
    out.write(b"abcdef");
    out.shutdown();
    let f = out.try_send(0, 1200).unwrap();
    assert_eq!(f.flag & 0x01, 0x01);
    assert_eq!(out.send_state(), SendState::DataSent);
    assert_eq!(out.data_at(0, 6), Some(&b"abcdef"[..]));
    assert!(out.ack_recv(0, 6));
    assert_eq!(out.send_state(), SendState::DataRecvd);
    assert!(matches!(out.is_cancelled_by_app().result, Some(Err(CancelTooLate::DataRecvd))));
}

#[test]
fn stream_reset() {
    let mut out = new(100);
    out.write(b"abc");
    out.shutdown();
    out.try_send(0, 1200);
    assert_eq!(out.send_state(), SendState::DataSent);
    out.stop();
    assert_eq!(out.send_state(), SendState::ResetSent);
    assert!(matches!(out.is_cancelled_by_app().result, Some(Ok(()))));
    out.confirm_reset();
    assert_eq!(out.send_state(), SendState::ResetRecvd);
    assert!(matches!(out.is_cancelled_by_app().result, Some(Err(CancelTooLate::ResetRecvd))));
}

#[test]
fn try_send_picks_lost_bytes_first() {
    let mut out = new(1000);
    out.write(&[1u8; 100]);
    let f = out.try_send(8, 40 + 25).unwrap();
    assert_eq!((f.offset, f.length, f.flag), (0, 40, 2));
    let f = out.try_send(8, 1200).unwrap();
    assert_eq!((f.offset, f.length, f.flag), (40, 60, 2 | 4));
    out.may_loss(40, 100);
    out.write(&[2u8; 10]);
    let f = out.try_send(8, 1200).unwrap();
    assert_eq!((f.offset, f.length), (40, 60));
    let f = out.try_send(8, 1200).unwrap();
    assert_eq!((f.offset, f.length), (100, 10));
}

#[test]
fn empty_write_is_accepted() {
    let mut out = new(100);
    assert_eq!(out.write(b""), 0);
    assert_eq!(out.send_state(), SendState::Ready);
    assert!(out.try_send(0, 1200).is_none());
}
