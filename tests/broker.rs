use zqtt::broker::Broker;
use zqtt::message::SubscribeError;
use zqtt::topic::parse_subscription;
use zqtt::session::{Action, Inbound, Session};
use zqtt::uid::UidGen;

#[test]
fn subscribed_session_receives_matching_publish() {
    let mut b = Broker::new(UidGen::new());
    let uid = b.accept().unwrap();
    assert_eq!(uid, 1);
    assert!(b.connect(uid));
    b.subscribe(uid, parse_subscription(&"a/#".to_string()).unwrap());
    assert_eq!(b.publish(&"a/b/c".to_string()).unwrap(), vec!["1".to_string()]);
    assert!(b.publish(&"b/c".to_string()).unwrap().is_empty());
}

#[test]
fn invalid_publish_topic_is_dropped() {
    let mut b = Broker::new(UidGen::new());
    assert!(b.publish(&"a/+".to_string()).is_err());
    assert!(b.publish(&"".to_string()).is_err());
}

#[test]
fn disconnect_drops_the_sessions_subscriptions() {
    let mut b = Broker::new(UidGen::new());
    let u1 = b.accept().unwrap();
    let u2 = b.accept().unwrap();
    assert!(b.connect(u1));
    assert!(b.connect(u2));
    b.subscribe(u1, parse_subscription(&"a/b".to_string()).unwrap());
    b.subscribe(u1, parse_subscription(&"x/#".to_string()).unwrap());
    b.subscribe(u2, parse_subscription(&"+/b".to_string()).unwrap());
    let mut ids = b.publish(&"a/b".to_string()).unwrap();
    ids.sort();
    assert_eq!(ids, vec!["1".to_string(), "2".to_string()]);
    b.disconnect(u1);
    assert_eq!(b.publish(&"a/b".to_string()).unwrap(), vec!["2".to_string()]);
    assert!(b.publish(&"x/y".to_string()).unwrap().is_empty());
}

#[test]
fn broker_unsubscribe_reports_trie_errors() {
    let mut b = Broker::new(UidGen::new());
    let u = b.accept().unwrap();
    assert!(b.connect(u));
    let ssid = parse_subscription(&"a/b".to_string()).unwrap();
    b.subscribe(u, ssid.clone());
    assert_eq!(b.unsubscribe(u, &ssid), Ok(()));
    assert_eq!(b.unsubscribe(u, &ssid), Err(SubscribeError::SSIDNotFound));
    assert!(b.publish(&"a/b".to_string()).unwrap().is_empty());
}

#[test]
fn connect_subscribe_then_publish_reaches_the_session() {
    let mut b = Broker::new(UidGen::new());
    let uid = b.accept().unwrap();
    let mut s = Session::new(uid);
    s.started(100);
    assert!(matches!(s.handle(Inbound::Connect).as_slice(), [Action::Register]));
    assert!(b.connect(uid));
    assert!(matches!(s.on_connect(true, 150).as_slice(), [Action::SendConnack]));
    let acts = s.handle(Inbound::Subscribe {
        pid: 1,
        topics: vec!["a/#".to_string()],
    });
    match acts.into_iter().next() {
        Some(Action::Subscribe(parsed)) => {
            for ssid in parsed.into_iter().flatten() {
                b.subscribe(uid, ssid);
            }
        }
        _ => panic!("expected a Subscribe action"),
    }
    let ids = b.publish(&"a/b/c".to_string()).unwrap();
    assert_eq!(ids, vec![s.id()]);
}

#[test]
fn stop_refuses_new_sessions_and_finishes_when_all_left() {
    let mut b = Broker::new(UidGen::new());
    let u1 = b.accept().unwrap();
    let u2 = b.accept().unwrap();
    assert!(b.connect(u1));
    assert!(b.connect(u2));
    assert!(!b.is_done());
    let mut to_close = b.stop();
    to_close.sort();
    assert_eq!(to_close, vec![u1, u2]);
    assert_eq!(b.accept(), None);
    assert!(!b.connect(99));
    b.disconnect(u1);
    assert!(!b.is_done());
    b.disconnect(u2);
    assert!(b.is_done());
}
