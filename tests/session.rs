use zqtt::hash::hash_str;
use zqtt::message::SubscriberKind;
use zqtt::session::{Action, Inbound, Session, SessionState};

fn connected(uid: u64) -> Session {
    let mut s = Session::new(uid);
    s.started(100);
    let acts = s.handle(Inbound::Connect);
    assert!(matches!(acts.as_slice(), [Action::Register]));
    let acts = s.on_connect(true, 150);
    assert!(matches!(acts.as_slice(), [Action::SendConnack]));
    s
}

#[test]
fn connect_then_connack() {
    let s = connected(7);
    assert_eq!(s.state(), SessionState::Connected);
    assert_eq!(s.started_at(), Some(100));
    assert_eq!(s.connect_at(), Some(150));
    assert_eq!(s.id(), "7".to_string());
    assert_eq!(s.kind(), SubscriberKind::Local);
}

#[test]
fn failed_registration_closes() {
    let mut s = Session::new(1);
    s.started(100);
    s.handle(Inbound::Connect);
    let acts = s.on_connect(false, 150);
    assert!(matches!(acts.as_slice(), [Action::Close]));
    assert_eq!(s.connect_at(), None);
    assert_eq!(s.state(), SessionState::Closing);
}

#[test]
fn packet_before_connect_closes() {
    let mut s = Session::new(1);
    s.started(100);
    let acts = s.handle(Inbound::PingReq);
    assert!(matches!(acts.as_slice(), [Action::Close]));
    assert_eq!(s.state(), SessionState::Closing);
}

#[test]
fn subscribe_grants_valid_filters_only() {
    let mut s = connected(3);
    let acts = s.handle(Inbound::Subscribe {
        pid: 9,
        topics: vec!["a/#".to_string(), "a/+".to_string()],
    });
    match acts.as_slice() {
        [Action::Subscribe(parsed), Action::SendSuback(9, granted)] => {
            assert_eq!(parsed[0], Some(vec![hash_str("a"), hash_str("#")]));
            assert_eq!(parsed[1], None);
            assert_eq!(granted, &vec![true, false]);
        }
        _ => panic!("expected Subscribe then SendSuback"),
    }
    assert_eq!(s.state(), SessionState::Connected);
}

#[test]
fn unsubscribe_is_always_acknowledged() {
    let mut s = connected(3);
    let acts = s.handle(Inbound::Unsubscribe {
        pid: 4,
        topics: vec!["a/b".to_string()],
    });
    match acts.as_slice() {
        [Action::Unsubscribe(parsed), Action::SendUnsuback(4)] => {
            assert_eq!(parsed[0], Some(vec![hash_str("a"), hash_str("b")]));
        }
        _ => panic!("expected Unsubscribe then SendUnsuback"),
    }
}

#[test]
fn publish_is_forwarded_and_ping_answered() {
    let mut s = connected(3);
    let acts = s.handle(Inbound::Publish {
        topic: "a/b/c".to_string(),
        payload: b"P".to_vec(),
        qos: 0,
    });
    match acts.as_slice() {
        [Action::Forward(t, p)] => {
            assert_eq!(t, "a/b/c");
            assert_eq!(p, &b"P".to_vec());
        }
        _ => panic!("expected Forward"),
    }
    assert!(matches!(s.handle(Inbound::PingReq).as_slice(), [Action::SendPingresp]));
}

#[test]
fn disconnect_and_second_connect_close() {
    let mut s = connected(3);
    assert!(matches!(
        s.handle(Inbound::Disconnect).as_slice(),
        [Action::Unregister, Action::Close]
    ));
    assert_eq!(s.state(), SessionState::Closing);
    assert!(s.handle(Inbound::PingReq).is_empty());
    s.stopped();
    assert_eq!(s.state(), SessionState::Closed);

    let mut s = connected(4);
    assert!(matches!(
        s.handle(Inbound::Connect).as_slice(),
        [Action::Unregister, Action::Close]
    ));
}

#[test]
fn stream_end_unregisters_a_connected_session() {
    let mut s = connected(3);
    assert!(matches!(
        s.on_stream_end().as_slice(),
        [Action::Unregister, Action::Close]
    ));
    let mut s = Session::new(5);
    s.started(100);
    assert!(matches!(s.on_stream_end().as_slice(), [Action::Close]));
}

#[test]
fn publish_above_qos_zero_closes() {
    let mut s = connected(3);
    let acts = s.handle(Inbound::Publish {
        topic: "a".to_string(),
        payload: vec![],
        qos: 1,
    });
    assert!(matches!(acts.as_slice(), [Action::Unregister, Action::Close]));
    assert_eq!(s.state(), SessionState::Closing);
}

#[test]
fn dropped_deliveries_are_counted() {
    let mut s = connected(3);
    s.record_drops(2);
    s.record_drops(1);
    assert_eq!(s.dropped(), 3);
    s.record_drops(u64::MAX);
    assert_eq!(s.dropped(), u64::MAX);
}

#[test]
fn session_id_is_decimal_uid() {
    assert_eq!(Session::new(1234567890).id(), "1234567890".to_string());
    assert_eq!(Session::new(0).id(), "0".to_string());
}
