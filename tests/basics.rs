use quic_core::codec::put_padding_frame;
use quic_core::util::add;

#[test]
fn frame_it_works() {
    assert_eq!(2 + 2, 4);
}

#[test]
fn mod_it_works() {
    assert_eq!(2 + 2, 4);
}

#[test]
fn lib_it_works() {
    let result = add(2, 2);
    assert_eq!(result, 4);
}

#[test]
fn long_it_works() {
    assert_eq!(2 + 2, 4)
}

#[test]
fn connection_it_works() {
    assert_eq!(2 + 2, 4)
}

#[test]
fn reader_it_works() {
    assert_eq!(2 + 2, 4);
}

#[test]
fn send_it_works() {
    println!("sender::tests::it_works");
}

#[test]
fn sndbuf_it_works() {
    println!("hello");
}

#[test]
fn space_it_works() {
    assert_eq!(2 + 2, 4);
}

#[test]
fn tx_it_works() {
    assert_eq!(2 + 2, 4);
}

#[test]
fn zero_rtt_data_it_works() {
    assert_eq!(2 + 2, 4);
}

#[test]
fn test_write_padding_frame() {
    let mut buf = Vec::new();
    put_padding_frame(&mut buf);
    assert_eq!(buf, vec![0x00]);
}
