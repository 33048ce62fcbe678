use bridge_daemon::agents::{AgentMsg, HelloOutcome, PROTOCOL_VERSION};
use bridge_daemon::announce::{AnnounceTransport, ANNOUNCE_LINGER_MS, PWSINK_BASE_PORT};
use bridge_daemon::connection::{connection_next, ConnAction, ConnEvent, ConnState, Incoming};
use bridge_daemon::devices::{Ap2Device, Ip};
use bridge_daemon::opening::{OpenAction, OpenEvent, OpenStage};
use bridge_daemon::reconciler::{sink_wait, GroupReconciler, SessionTransport, SinkOutcome, WaitStep, SINK_LOOKS, SINK_LOOK_MS};
use bridge_daemon::rtp::Ipv4;

// ---- an agent's connection ----------------------------------------------------------------------

fn hello() -> ConnEvent {
    ConnEvent::Frame(Incoming::Message(AgentMsg::Hello {
        protocol: PROTOCOL_VERSION,
        agent_version: "1.2".to_string(),
        machine_id: "m1".to_string(),
        hostname: "office".to_string(),
        user: "dave".to_string(),
        token: None,
        pair_code: Some("A1B2C3".to_string()),
    }))
}

fn asked() -> ConnState {
    connection_next(ConnState::Fresh, hello()).0
}

#[test]
fn a_connection_begins_with_a_hello() {
    let (s, actions) = connection_next(ConnState::Fresh, hello());
    assert!(matches!(&s, ConnState::Asked { identity } if identity == "m1:dave"));
    assert_eq!(actions.len(), 1);
    match &actions[0] {
        ConnAction::Ask { protocol, agent_version, machine_id, hostname, user, token, pair_code } => {
            assert_eq!((*protocol, agent_version.as_str()), (PROTOCOL_VERSION, "1.2"));
            assert_eq!((machine_id.as_str(), hostname.as_str(), user.as_str()), ("m1", "office", "dave"));
            assert_eq!((token, pair_code.as_deref()), (&None, Some("A1B2C3")));
        }
        _ => panic!("expected a question"),
    }
    let firsts = [
        ConnEvent::Frame(Incoming::Message(AgentMsg::Pong)),
        ConnEvent::Frame(Incoming::Other),
        ConnEvent::Frame(Incoming::Close),
        ConnEvent::Gone,
    ];
    for first in firsts {
        let (s, actions) = connection_next(ConnState::Fresh, first);
        assert!(matches!(s, ConnState::Closed));
        assert!(matches!(&actions[..], [ConnAction::Deny { reason }] if reason == "expected a hello message"));
    }
}

#[test]
fn a_waiting_host_is_not_acted_on_and_its_request_ends_with_it() {
    let (mut s, actions) = connection_next(asked(), ConnEvent::Answer(HelloOutcome::Pending));
    assert!(actions.is_empty());
    for e in [hello(), ConnEvent::Frame(Incoming::Message(AgentMsg::Pong)), ConnEvent::Frame(Incoming::Other), ConnEvent::PingDue] {
        let (next, actions) = connection_next(s, e);
        assert!(matches!(next, ConnState::Waiting { .. }));
        assert!(actions.is_empty());
        s = next;
    }
    let (s, actions) = connection_next(s, ConnEvent::Frame(Incoming::Close));
    assert!(matches!(s, ConnState::Closed));
    assert!(matches!(&actions[..], [ConnAction::Forget { identity }] if identity == "m1:dave"));
    assert!(connection_next(s, hello()).1.is_empty());
}

#[test]
fn a_denied_host_hears_why_before_the_connection_ends() {
    let (s, actions) = connection_next(asked(), ConnEvent::Answer(HelloOutcome::Denied("no".to_string())));
    assert!(matches!(s, ConnState::Closed));
    assert!(matches!(&actions[..], [ConnAction::Deny { reason }, ConnAction::Flush] if reason == "no"));
}

#[test]
fn an_approved_host_is_served_until_it_is_gone() {
    for end in [ConnEvent::Frame(Incoming::Close), ConnEvent::Gone, ConnEvent::PingLost] {
        let answer = HelloOutcome::Welcome { node_name: "pwsink-dev-office".to_string(), label: "office (dave)".to_string() };
        let (s, actions) = connection_next(asked(), ConnEvent::Answer(answer));
        assert!(matches!(&actions[..], [ConnAction::Welcome { node_name, .. }] if node_name == "pwsink-dev-office"));
        let (s, actions) = connection_next(s, ConnEvent::Frame(Incoming::Message(AgentMsg::Pong)));
        assert!(matches!(&actions[..], [ConnAction::Hear { node_name, msg: AgentMsg::Pong }] if node_name == "pwsink-dev-office"));
        let (s, actions) = connection_next(s, ConnEvent::PingDue);
        assert!(matches!(&actions[..], [ConnAction::Ping]));
        let (s, actions) = connection_next(s, ConnEvent::Frame(Incoming::Other));
        assert!(actions.is_empty());
        let (s, actions) = connection_next(s, end);
        assert!(matches!(s, ConnState::Closed));
        assert!(matches!(&actions[..], [ConnAction::Disconnect { node_name }] if node_name == "pwsink-dev-office"));
    }
}

// ---- opening a session --------------------------------------------------------------------------

fn unavailable(t: Option<AnnounceTransport>) -> String {
    match t {
        Some(AnnounceTransport::Unavailable(why)) => why,
        _ => panic!("expected a reason"),
    }
}

fn receiver() -> Ap2Device {
    Ap2Device {
        fullname: "x".to_string(),
        display_name: "x".to_string(),
        model: None,
        features: None,
        addr: Some((Ip::V4(Ipv4 { a: 10, b: 0, c: 0, d: 9 }), 7000)),
        present: true,
    }
}

#[test]
fn an_airplay_session_opens_step_by_step() {
    let mut r = GroupReconciler::new();
    let out = "ap2-dev-dusche";
    let (mut o, actions) = r.open_ap2_announce_session(out, Some(&receiver()), 44_100, Some(40_000), 2_000).ok().unwrap();
    assert!(matches!(&actions[..], [OpenAction::StartClock]));
    assert_eq!(o.linger(), 42_000);
    let (actions, result) = o.next(&mut r, OpenEvent::Clock(Ok(())), 0);
    assert!(matches!(&actions[..], [OpenAction::FindSink { node_name }] if node_name == "idle-dev-ap2-dusche"));
    assert!(result.is_none());
    let (actions, _) = o.next(&mut r, OpenEvent::Found(None), 0);
    assert!(matches!(&actions[..], [OpenAction::CreateSink { node_name }] if node_name == "idle-dev-ap2-dusche"));
    // What is not waited for is passed over.
    let (actions, result) = o.next(&mut r, OpenEvent::Found(Some(3)), 0);
    assert!(actions.is_empty() && result.is_none());
    let (actions, _) = o.next(&mut r, OpenEvent::Sink(SinkOutcome::Ready(7)), 0);
    match &actions[..] {
        [OpenAction::SetRate { output, rate: 44_100 }, OpenAction::StartAp2 { member, node_id: 7, rate: 44_100 }] => {
            assert_eq!(output, out);
            assert_eq!((member.node_name.as_str(), member.delay), (out, Some(40_000)));
        }
        _ => panic!("the rate comes first"),
    }
    let (actions, result) = o.next(&mut r, OpenEvent::Started(Ok(31)), 1_000);
    assert!(actions.is_empty());
    assert!(matches!(result, Some(AnnounceTransport::Starting)));
    assert_eq!(o.stage, OpenStage::Over);
    let s = r.announce_sessions.get(out).unwrap();
    assert_eq!((s.sink_node_id, s.transport, s.expires_at, s.linger), (7, SessionTransport::Ap2(31), 43_000, 42_000));
}

#[test]
fn an_airplay_session_that_fails_leaves_nothing() {
    let mut r = GroupReconciler::new();
    let out = "ap2-dev-dusche";
    let why = r.open_ap2_announce_session(out, None, 48_000, None, 2_000).err();
    assert_eq!(unavailable(why), "unknown AirPlay-2 receiver");
    let begin = |r: &GroupReconciler| r.open_ap2_announce_session(out, Some(&receiver()), 48_000, None, 2_000).ok().unwrap().0;
    let mut o = begin(&r);
    let (actions, result) = o.next(&mut r, OpenEvent::Clock(Err("no clock".to_string())), 0);
    assert!(actions.is_empty());
    assert_eq!(unavailable(result), "AP2 PTP grandmaster unavailable: no clock");
    let mut o = begin(&r);
    o.next(&mut r, OpenEvent::Clock(Ok(())), 0);
    o.next(&mut r, OpenEvent::Found(None), 0);
    let (actions, result) = o.next(&mut r, OpenEvent::Sink(SinkOutcome::NotSeen), 0);
    assert!(actions.is_empty());
    assert_eq!(unavailable(result), "announce sink 'idle-dev-ap2-dusche' did not appear in the graph");
    let mut o = begin(&r);
    o.next(&mut r, OpenEvent::Clock(Ok(())), 0);
    o.next(&mut r, OpenEvent::Found(Some(9)), 0);
    let (actions, result) = o.next(&mut r, OpenEvent::Started(Err("refused".to_string())), 0);
    assert!(matches!(&actions[..], [OpenAction::ClearRate { output }, OpenAction::DestroySink { node_id: 9 }] if output == out));
    assert_eq!(unavailable(result), "failed to start an on-demand AirPlay-2 session: refused");
    assert!(r.announce_sessions.is_empty());
    assert!(o.next(&mut r, OpenEvent::Started(Ok(1)), 0).1.is_none());
}

#[test]
fn a_host_session_opens_on_a_free_port() {
    let mut r = GroupReconciler::new();
    let out = "pwsink-dev-office";
    assert_eq!(unavailable(r.open_pwsink_announce_session(out, false, 80).err()), "no receiver agent is connected for this host");
    let (mut o, actions) = r.open_pwsink_announce_session(out, true, 80).ok().unwrap();
    assert!(matches!(&actions[..], [OpenAction::FindSink { node_name }] if node_name == "idle-dev-pwsink-office"));
    let (actions, _) = o.next(&mut r, OpenEvent::Found(Some(4)), 0);
    match &actions[..] {
        [OpenAction::StartPwSink { member, node_id: 4 }] => {
            assert_eq!((member.node_name.as_str(), member.control_port, member.playout_ms), (out, PWSINK_BASE_PORT, 80));
        }
        _ => panic!("expected a start"),
    }
    let (_, result) = o.next(&mut r, OpenEvent::Started(Ok(5)), 10);
    assert!(matches!(result, Some(AnnounceTransport::Starting)));
    let s = r.announce_sessions.get(out).unwrap();
    assert_eq!(s.transport, SessionTransport::PwSink { server: 5, control_port: PWSINK_BASE_PORT });
    assert_eq!(s.expires_at, 10 + ANNOUNCE_LINGER_MS);
}

#[test]
fn a_new_sink_is_looked_for_a_limited_time() {
    assert_eq!(sink_wait(0, Some(8)), WaitStep::Ready(8));
    assert_eq!(sink_wait(0, None), WaitStep::Wait(50));
    assert_eq!(sink_wait(SINK_LOOKS - 1, None), WaitStep::Wait(SINK_LOOK_MS));
    assert_eq!(sink_wait(SINK_LOOKS - 1, Some(8)), WaitStep::Ready(8));
    assert_eq!(sink_wait(SINK_LOOKS, None), WaitStep::GiveUp);
    assert_eq!(sink_wait(SINK_LOOKS, Some(8)), WaitStep::GiveUp);
    assert_eq!(SINK_LOOKS, 40);
}
