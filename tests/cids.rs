use quic_core::cid::{ConnectionId, ResetToken, RESET_TOKEN_SIZE};
use quic_core::cid_registry::{
    CidError, ConnectionIdGenerator, DestConnectionIdentifiers, RandomConnectionIdGenerator,
    SourceConnectionIdentifiers,
};

#[test]
fn ids_new_scids() {
    let mut generator = RandomConnectionIdGenerator::new(8);
    let scid = generator.generate_cid();
    let mut ids = SourceConnectionIdentifiers::new(&scid, 0, None);
    ids.set_conn_id_limit(3);

    let scid2 = generator.generate_cid();
    let reset_token = ResetToken::new_with(&[0; RESET_TOKEN_SIZE]);

    let seq = ids.new_cid(scid2, Some(reset_token.copy()), true, None, false).unwrap();

    assert_eq!(seq, 1);
    assert_eq!(ids.next_cid_seq(), 2);
    assert_eq!(ids.active_cids_len(), 2);

    let scid3 = generator.generate_cid();
    let seq = ids.new_cid(scid3, Some(reset_token.copy()), true, None, false).unwrap();

    assert_eq!(seq, 2);
    assert_eq!(ids.next_cid_seq(), 3);
    assert_eq!(ids.active_cids_len(), 3);

    let scid4 = generator.generate_cid();
    let seq = ids.new_cid(scid4, Some(reset_token.copy()), true, None, true).unwrap();

    assert_eq!(seq, 3);
    assert_eq!(ids.next_cid_seq(), 4);
    assert_eq!(ids.active_cids_len(), 4);
    assert_eq!(ids.retire_prior_to(), 1);
    assert_eq!(ids.oldest_cid().seq, 0);
}

#[test]
fn generated_cids_have_their_length() {
    let mut generator = RandomConnectionIdGenerator::new(8);
    assert_eq!(generator.generate_cid().len(), 8);
    assert_eq!(generator.cid_len(), 8);
    generator.set_lifetime(5_000_000);
    assert_eq!(generator.cid_lifetime(), Some(5_000_000));
    let mut g0 = RandomConnectionIdGenerator::default();
    assert_eq!(g0.generate_cid().len(), 8);
}

#[test]
fn scid_errors() {
    let scid = ConnectionId::from_slice(&[1, 2, 3, 4]);
    let mut ids = SourceConnectionIdentifiers::new(&scid, 0, None);
    let t = ResetToken::new_with(&[1; RESET_TOKEN_SIZE]);
    assert_eq!(ids.new_cid(ConnectionId::from_slice(&[5]), None, false, None, false), Err(CidError::InvalidState));
    assert_eq!(ids.new_cid(ConnectionId::from_slice(&[5]), Some(t.copy()), true, Some(1), false), Ok(1));
    assert_eq!(ids.next_advertise_new_cid_seq(), Some(1));
    assert!(ids.has_new_cids());
    ids.mark_advertise_new_cid_seq(1, false);
    assert!(!ids.has_new_cids());
    // the limit of two is reached
    assert_eq!(ids.new_cid(ConnectionId::from_slice(&[5]), Some(t.copy()), true, None, false), Err(CidError::IdLimit));
    assert_eq!(ids.new_cid(ConnectionId::from_slice(&[6]), Some(t.copy()), true, None, false), Err(CidError::IdLimit));
    assert_eq!(ids.find_cid_seq(&ConnectionId::from_slice(&[5])), Some((1, Some(1))));
    assert_eq!(ids.available_cids(), 0);
    assert_eq!(ids.get_cid(7).unwrap_err(), CidError::InvalidState);
    assert_eq!(ids.retire_cid(9, &scid), Err(CidError::InvalidState));
    assert_eq!(ids.retire_cid(1, &scid), Ok(Some(1)));
    assert_eq!(ids.pop_retired_cid().unwrap().as_bytes(), &[5u8][..]);
    assert_eq!(ids.retire_cid(0, &scid), Err(CidError::OutOfIdentifiers));
    assert!(ids.link_scid_to_path_id(0, 3).is_ok());
    assert_eq!(ids.link_scid_to_path_id(8, 3), Err(CidError::InvalidState));
    assert!(!ids.zero_length_cid());
    let f = ids.get_new_connection_id_frame_for(0);
    assert_eq!(f.unwrap_err(), CidError::InvalidState);
}

#[test]
fn dcids() {
    let mut ids = DestConnectionIdentifiers::new(3, 0);
    let t = ResetToken::new_with(&[2; RESET_TOKEN_SIZE]);
    assert_eq!(ids.new_dcid(ConnectionId::from_slice(&[9]), 1, t.copy(), 0).unwrap(), vec![]);
    assert_eq!(ids.new_dcid(ConnectionId::from_slice(&[9]), 1, t.copy(), 0).unwrap(), vec![]);
    assert_eq!(ids.new_dcid(ConnectionId::from_slice(&[9]), 2, t.copy(), 0).unwrap_err(), CidError::InvalidFrame);
    assert_eq!(ids.new_dcid(ConnectionId::from_slice(&[8]), 2, t.copy(), 3).unwrap_err(), CidError::InvalidFrame);
    assert_eq!(ids.lowest_available_cid_seq(), Some(1));
    // retiring prior to 2 retires the initial identifier, which path 0 used
    assert_eq!(ids.new_dcid(ConnectionId::from_slice(&[8]), 2, t.copy(), 2).unwrap(), vec![(0, 0)]);
    assert!(ids.has_retire_dcids());
    assert_eq!(ids.next_retire_dcid_seq(), Some(0));
    ids.mark_retire_cid_seq(0, false);
    assert_eq!(ids.next_retire_dcid_seq(), Some(1));
    assert_eq!(ids.new_dcid(ConnectionId::from_slice(&[7]), 3, t.copy(), 0).unwrap(), vec![]);
    assert!(ids.link_cid_to_path_id(2, 5).is_ok());
    assert_eq!(ids.retire_cid(7), Err(CidError::InvalidState));
    assert_eq!(ids.retire_cid(2), Ok(Some(5)));
    assert_eq!(ids.retire_cid(3), Err(CidError::OutOfIdentifiers));
    assert!(!ids.zero_length_dcid());
}
