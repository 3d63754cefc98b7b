use sonic::connector_error::ConnectorError;
use sonic::health::{target_for_session, ConnectorHealth, ConnectorHealthKind, HealthMonitor};
use sonic::zenoh_session::{
    classify_reply, querier_event, query_id_from_counter, FrameKind, QuerierEvent, QueryId, ReplyFrame, SessionError,
    SessionState, ZeroedMinter,
};

#[test]
fn counter_ids_are_big_endian_then_zero() {
    let id = query_id_from_counter(0x0102_0304_0506_0708);
    let mut expected = [0u8; 32];
    expected[..8].copy_from_slice(&0x0102_0304_0506_0708u64.to_be_bytes());
    assert_eq!(id, QueryId(expected));
    assert_eq!(query_id_from_counter(0), QueryId([0u8; 32]));
}

#[test]
fn minter_starts_at_one_and_counts_up() {
    let mut m = ZeroedMinter::new();
    let a = m.next();
    let b = m.next();
    assert_eq!(a, query_id_from_counter(1));
    assert_eq!(b, query_id_from_counter(2));
    assert_ne!(a, b);
}

#[test]
fn default_minter_starts_at_zero() {
    let mut m = ZeroedMinter::default();
    assert_eq!(m.next(), QueryId([0u8; 32]));
}

#[test]
fn frame_kinds_from_bytes() {
    assert_eq!(FrameKind::from_byte(0x01), Some(FrameKind::Data));
    assert_eq!(FrameKind::from_byte(0x02), Some(FrameKind::EndOfStream));
    assert_eq!(FrameKind::from_byte(0x03), Some(FrameKind::Timeout));
    assert_eq!(FrameKind::from_byte(0x00), None);
    assert_eq!(FrameKind::from_byte(0x04), None);
    for k in [FrameKind::Data, FrameKind::EndOfStream, FrameKind::Timeout] {
        assert_eq!(FrameKind::from_byte(k.to_byte()), Some(k));
    }
}

#[test]
fn reply_frames_are_classified() {
    assert_eq!(classify_reply(&[]).unwrap(), None);
    assert_eq!(classify_reply(&[0x01, 9, 9, 9, 9]).unwrap(), Some(ReplyFrame::Data { len: 5 }));
    assert_eq!(classify_reply(&[0x02]).unwrap(), Some(ReplyFrame::EndOfStream));
    assert_eq!(classify_reply(&[0x03, 0]).unwrap(), Some(ReplyFrame::Timeout));
}

#[test]
fn unknown_discriminator_is_named_in_hex() {
    match classify_reply(&[0xAB, 1, 2]) {
        Err(ConnectorError::Stack(m)) => assert_eq!(m, "invalid reply-frame discriminator: 0xAB"),
        _ => panic!("expected a stack error"),
    }
    match classify_reply(&[0x0F]) {
        Err(ConnectorError::Stack(m)) => assert_eq!(m, "invalid reply-frame discriminator: 0x0F"),
        _ => panic!("expected a stack error"),
    }
}

#[test]
fn querier_events_carry_their_id() {
    let id = query_id_from_counter(9);
    let ev: QuerierEvent<u32> = QuerierEvent::Reply { id, value: 4 };
    match ev.clone() {
        QuerierEvent::Reply { id: got, value } => {
            assert_eq!(got, id);
            assert_eq!(value, 4);
        }
        _ => panic!("wrong event"),
    }
    assert!(matches!(QuerierEvent::<u32>::Timeout { id }, QuerierEvent::Timeout { .. }));
    assert!(matches!(QuerierEvent::<u32>::EndOfStream { id }, QuerierEvent::EndOfStream { .. }));
}

#[test]
fn session_state_equality_and_error_text() {
    assert_eq!(SessionState::Closed { reason: "a".into() }, SessionState::Closed { reason: "a".into() });
    assert_ne!(SessionState::Closed { reason: "a".into() }, SessionState::Closed { reason: "b".into() });
    assert_ne!(SessionState::Alive, SessionState::Connecting);
    assert!(SessionState::Alive.is_alive());
    let e = SessionError::NotAlive { reason: "gone".into() };
    assert_eq!(e.to_string(), "session not alive: gone");
}

#[test]
fn session_states_map_to_health() {
    assert_eq!(target_for_session(&SessionState::Connecting).kind(), ConnectorHealthKind::Connecting);
    assert_eq!(target_for_session(&SessionState::Alive).kind(), ConnectorHealthKind::Up);
    match target_for_session(&SessionState::Closed { reason: "bye".into() }) {
        ConnectorHealth::Down { reason } => assert_eq!(reason, "bye"),
        _ => panic!("closed must map to down"),
    }
    assert_eq!(HealthMonitor::new().current().kind(), ConnectorHealthKind::Connecting);
}

#[test]
fn classified_frames_become_events() {
    let id = query_id_from_counter(3);
    match querier_event(id, ReplyFrame::Data { len: 2 }, Some(41u8)) {
        QuerierEvent::Reply { id: got, value } => {
            assert_eq!(got, id);
            assert_eq!(value, 41);
        }
        _ => panic!("data frame must become a reply"),
    }
    assert!(matches!(querier_event::<u8>(id, ReplyFrame::EndOfStream, None), QuerierEvent::EndOfStream { id: got } if got == id));
    assert!(matches!(querier_event::<u8>(id, ReplyFrame::Timeout, None), QuerierEvent::Timeout { id: got } if got == id));
}
