use std::sync::{Arc, Mutex};

use sonic::zenoh_mock::{MockZenohSession, QueryFanIn};
use sonic::zenoh_session::{SessionError, SessionState};

type PayloadSink = Box<dyn Fn(&[u8])>;
/// A queryable answers with one reply per call.
type QueryHandler = Box<dyn Fn(&[u8]) -> Vec<u8>>;
type Session = MockZenohSession<PayloadSink, QueryHandler>;

fn routing(key: &str) -> String {
    key.to_string()
}

fn collect_sink() -> (Arc<Mutex<Vec<Vec<u8>>>>, PayloadSink) {
    let received: Arc<Mutex<Vec<Vec<u8>>>> = Arc::new(Mutex::new(Vec::new()));
    let received_clone = received.clone();
    let sink: PayloadSink = Box::new(move |bytes: &[u8]| {
        received_clone.lock().unwrap().push(bytes.to_vec());
    });
    (received, sink)
}

/// Publish as the session decides: hand the payload to each chosen
/// subscriber, in order.
fn publish(session: &Session, key: &String, payload: &[u8]) -> Result<(), SessionError> {
    let targets = session.publish(key)?;
    for i in targets {
        (session.subscribers()[i].handler)(payload);
    }
    Ok(())
}

#[test]
fn mock_session_starts_alive() {
    let session = Session::new();
    assert_eq!(session.state(), SessionState::Alive);
}

#[test]
fn publish_with_no_subscriber_does_not_error() {
    let session = Session::new();
    let r = routing("robot/arm/joint1");
    publish(&session, &r, b"hello").expect("publish ok");
}

#[test]
fn pub_sub_loopback_single_subscriber() {
    let mut session = Session::new();
    let r = routing("robot/arm/joint1");

    let (received, sink) = collect_sink();
    let _sub = session.subscribe(r.clone(), sink);
    publish(&session, &r, b"hello").expect("publish ok");
    publish(&session, &r, b"world").expect("publish ok");

    let got = received.lock().unwrap().clone();
    assert_eq!(got.len(), 2);
    assert_eq!(got[0], b"hello");
    assert_eq!(got[1], b"world");
}

#[test]
fn pub_sub_loopback_fans_out_to_multiple_subscribers() {
    let mut session = Session::new();
    let r = routing("robot/arm/joint1");

    let (received_a, sink_a) = collect_sink();
    let (received_b, sink_b) = collect_sink();
    let _sub_a = session.subscribe(r.clone(), sink_a);
    let _sub_b = session.subscribe(r.clone(), sink_b);

    publish(&session, &r, b"broadcast").expect("publish ok");

    assert_eq!(received_a.lock().unwrap().len(), 1);
    assert_eq!(received_b.lock().unwrap().len(), 1);
}

#[test]
fn pub_sub_loopback_filters_by_key_expr() {
    let mut session = Session::new();
    let arm = routing("robot/arm");
    let leg = routing("robot/leg");

    let (received, sink) = collect_sink();
    let _sub = session.subscribe(arm.clone(), sink);

    publish(&session, &arm, b"arm-payload").unwrap();
    publish(&session, &leg, b"leg-payload").unwrap();

    let got = received.lock().unwrap().clone();
    assert_eq!(got.len(), 1, "only arm payload should arrive");
    assert_eq!(got[0], b"arm-payload");
}

#[test]
fn dropping_subscription_handle_stops_delivery() {
    let mut session = Session::new();
    let r = routing("robot/arm/joint1");

    let (received, sink) = collect_sink();
    let sub = session.subscribe(r.clone(), sink);

    publish(&session, &r, b"first").unwrap();
    session.unsubscribe(sub);
    publish(&session, &r, b"second").unwrap();

    let got = received.lock().unwrap().clone();
    assert_eq!(got.len(), 1);
    assert_eq!(got[0], b"first");
}

#[test]
fn programmable_session_state_steps() {
    let mut session = Session::new();
    assert_eq!(session.state(), SessionState::Alive);

    session.set_state(SessionState::Closed { reason: "test close".into() });
    assert!(matches!(session.state(), SessionState::Closed { .. }));

    session.set_state(SessionState::Connecting);
    assert_eq!(session.state(), SessionState::Connecting);
}

#[test]
fn publish_returns_not_alive_when_closed() {
    let mut session = Session::new();
    let r = routing("robot/arm/joint1");
    session.set_state(SessionState::Closed { reason: "test".into() });

    let err = publish(&session, &r, b"ignored").expect_err("closed rejects publish");
    let msg = err.to_string();
    assert!(msg.contains("not alive"));
}

#[test]
fn ids_count_up_from_one_per_kind() {
    let mut session = Session::new();
    assert_eq!(session.next_subscription_id(), 1);
    let a = session.subscribe(routing("k"), Box::new(|_: &[u8]| {}));
    let b = session.subscribe(routing("k"), Box::new(|_: &[u8]| {}));
    let q = session.declare_queryable(routing("k"), Box::new(|p: &[u8]| p.to_vec()));
    assert_eq!((a, b, q), (1, 2, 1));
    assert_eq!(session.subscriber_count(), 2);
    assert_eq!(session.queryable_count(), 1);
    assert_eq!(session.next_queryable_id(), 2);
}

#[test]
fn publish_targets_are_in_subscription_order() {
    let mut session = Session::new();
    session.subscribe(routing("a"), Box::new(|_: &[u8]| {}));
    session.subscribe(routing("b"), Box::new(|_: &[u8]| {}));
    session.subscribe(routing("a"), Box::new(|_: &[u8]| {}));
    assert_eq!(session.publish(&routing("a")).unwrap(), vec![0, 2]);
    assert_eq!(session.publish(&routing("b")).unwrap(), vec![1]);
    assert!(session.publish(&routing("c")).unwrap().is_empty());
}

#[test]
fn unsubscribing_an_unknown_id_changes_nothing() {
    let mut session = Session::new();
    session.subscribe(routing("a"), Box::new(|_: &[u8]| {}));
    session.unsubscribe(42);
    assert_eq!(session.subscriber_count(), 1);
}

#[test]
fn query_reaches_matching_queryables_and_done_fires_once() {
    let mut session = Session::new();
    let k = routing("robot/arm/joint1");
    session.declare_queryable(k.clone(), Box::new(|p: &[u8]| [p, b"-a"].concat()));
    session.declare_queryable(routing("other"), Box::new(|p: &[u8]| p.to_vec()));
    session.declare_queryable(k.clone(), Box::new(|p: &[u8]| [p, b"-b"].concat()));

    let targets = session.query(&k).unwrap();
    assert_eq!(targets, vec![0, 2]);
    let mut fan_in = QueryFanIn::new(targets.len());
    assert!(!fan_in.completes_immediately());
    let mut replies = Vec::new();
    let mut fired = 0;
    for i in targets {
        replies.push((session.queryables()[i].handler)(b"q"));
        if fan_in.terminate() {
            fired += 1;
        }
    }
    assert_eq!(replies, vec![b"q-a".to_vec(), b"q-b".to_vec()]);
    assert_eq!(fired, 1);
    assert!(!fan_in.terminate());
}

#[test]
fn query_without_queryables_completes_immediately() {
    let session = Session::new();
    let targets = session.query(&routing("nobody")).unwrap();
    assert!(QueryFanIn::new(targets.len()).completes_immediately());
}

#[test]
fn query_refused_when_not_alive() {
    let mut session = Session::new();
    session.set_state(SessionState::Connecting);
    match session.query(&routing("k")) {
        Err(SessionError::NotAlive { reason }) => assert_eq!(reason, "mock session not alive"),
        Ok(_) => panic!("query accepted while connecting"),
    }
}

#[test]
fn undeclared_queryable_gets_no_query() {
    let mut session = Session::new();
    let q = session.declare_queryable(routing("k"), Box::new(|p: &[u8]| p.to_vec()));
    session.undeclare_queryable(q);
    assert!(session.query(&routing("k")).unwrap().is_empty());
    assert_eq!(session.queryable_count(), 0);
}
