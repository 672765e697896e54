use mles_relay::relay::Bridge;
use mles_relay::relay::BrokerAction;
use mles_relay::relay::BrokerEvent;
use mles_relay::relay::ConnectDecision;
use mles_relay::relay::MAX_CONNECT_ATTEMPTS;
use mles_relay::relay::SessionEvent;
use mles_relay::relay::SessionState;
use mles_relay::relay::broker_poll_action;
use mles_relay::relay::connect_poll_step;
use mles_relay::relay::session_advance;

#[test]
fn test_bridge_forwarding() {
    // Mock endpoints: frames [f1, f1, f2] arrive on A; B receives exactly
    // [f1, f2] in that order and the A-to-B counter reads 2.
    let f1 = vec![1u8, 2, 3];
    let f2 = vec![9u8, 8, 7, 6];
    let arriving = vec![f1.clone(), f1.clone(), f2.clone()];
    let mut bridge = Bridge::new();
    let received = bridge.forward_batch_a_to_b(&arriving);
    assert_eq!(received, vec![f1, f2]);
    let stats = bridge.stats();
    assert_eq!(stats.a_to_b, 2);
    assert_eq!(stats.b_to_a, 0);
}

#[test]
fn test_bridge_suppresses_echo_across_directions() {
    // One tracker is shared by both directions: a frame forwarded A-to-B is
    // suppressed when the far side echoes it back.
    let frame = vec![42u8; 10];
    let mut bridge = Bridge::new();
    assert!(bridge.handle_a_to_b(&frame));
    assert!(!bridge.handle_b_to_a(&frame));
    let stats = bridge.stats();
    assert_eq!(stats.a_to_b, 1);
    assert_eq!(stats.b_to_a, 0);
}

#[test]
fn test_bridge_counts_per_direction() {
    let mut bridge = Bridge::new();
    assert!(bridge.handle_a_to_b(b"north"));
    assert!(bridge.handle_b_to_a(b"south"));
    assert!(bridge.handle_b_to_a(b"east"));
    assert!(!bridge.handle_a_to_b(b"south"));
    let stats = bridge.stats();
    assert_eq!(stats.a_to_b, 1);
    assert_eq!(stats.b_to_a, 2);
}

#[test]
fn test_broker_poll_actions() {
    let payload = vec![5u8, 6, 7];
    assert!(matches!(
        broker_poll_action(BrokerEvent::Inbound(payload.clone())),
        BrokerAction::ForwardToPeer(p) if p == payload
    ));
    assert!(matches!(
        broker_poll_action(BrokerEvent::Disconnected),
        BrokerAction::BackOff
    ));
    assert!(matches!(
        broker_poll_action(BrokerEvent::PollFailure),
        BrokerAction::BackOff
    ));
    assert!(matches!(
        broker_poll_action(BrokerEvent::SessionAck),
        BrokerAction::Ignore
    ));
    assert!(matches!(
        broker_poll_action(BrokerEvent::Quiet),
        BrokerAction::Ignore
    ));
}

#[test]
fn test_connect_handshake_steps() {
    assert_eq!(
        connect_poll_step(&BrokerEvent::SessionAck, 0),
        (ConnectDecision::Established, 0)
    );
    assert_eq!(
        connect_poll_step(&BrokerEvent::Quiet, 1),
        (ConnectDecision::KeepWaiting, 1)
    );
    // Failed polls consume the attempts one by one, then give up.
    assert_eq!(
        connect_poll_step(&BrokerEvent::PollFailure, 0),
        (ConnectDecision::RetryAfterDelay, 1)
    );
    assert_eq!(
        connect_poll_step(&BrokerEvent::PollFailure, 1),
        (ConnectDecision::RetryAfterDelay, 2)
    );
    assert_eq!(
        connect_poll_step(&BrokerEvent::PollFailure, MAX_CONNECT_ATTEMPTS - 1),
        (ConnectDecision::GiveUp, MAX_CONNECT_ATTEMPTS)
    );
}

#[test]
fn test_session_happy_path() {
    let s0 = SessionState::Connecting;
    let s1 = session_advance(s0, SessionEvent::Connected);
    assert_eq!(s1, SessionState::Authenticating);
    let s2 = session_advance(s1, SessionEvent::Authenticated);
    assert_eq!(s2, SessionState::Relaying);
    let s3 = session_advance(s2, SessionEvent::LoopEnded);
    assert_eq!(s3, SessionState::Draining);
    let s4 = session_advance(s3, SessionEvent::Drained);
    assert_eq!(s4, SessionState::Closed);
}

#[test]
fn test_session_interrupt_drains() {
    assert_eq!(
        session_advance(SessionState::Relaying, SessionEvent::Interrupted),
        SessionState::Draining
    );
    assert_eq!(
        session_advance(SessionState::Connecting, SessionEvent::Interrupted),
        SessionState::Draining
    );
}

#[test]
fn test_session_closed_is_final() {
    for event in [
        SessionEvent::Connected,
        SessionEvent::Authenticated,
        SessionEvent::LoopEnded,
        SessionEvent::Interrupted,
        SessionEvent::Drained,
    ] {
        assert_eq!(
            session_advance(SessionState::Closed, event),
            SessionState::Closed
        );
    }
}
