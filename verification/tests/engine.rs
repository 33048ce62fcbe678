use bridge_daemon::anchor::{anchor_plan, is_raop_output, source_needs_raop_anchor, AnchorStep, ANCHOR_NODE_NAME};
use bridge_daemon::announce::{ap2_linger_ms, AnnounceTransport, PWSINK_BASE_PORT};
use bridge_daemon::device_groups::{device_groups, DeviceGroups};
use bridge_daemon::devices::{set_present, Ap2Device, Ip, LivenessTracker, SendspinDevice, FAIL_THRESHOLD, REMOVE_AFTER_MS};
use bridge_daemon::feed::{feed_next, FeedAction, FeedEvent, FeedState, SentListings, Slot};
use bridge_daemon::graph::{
    create_links_reply, destroy_links_reply, GlobalProps, LinkOutcome, LinkSpec, ModuleTable, Profiler, ProfilingAction, RegistryState,
};
use bridge_daemon::hosts::{publish_statuses, session_plans, HostRelay, DROP_REPORT_MS};
use bridge_daemon::maps::{NameMap, NameSet};
use bridge_daemon::meters::{captured, new_xruns, on_profile, peak_of, tap_peak, Block, BlockKind, Field, MeterHub, Watchers};
use bridge_daemon::reconciler::{
    announce_sink, ap2_announce_target, open_failed, Action, AnnounceDecision, GroupReconciler, OpenStep, PwSinkMember, SessionTransport,
    SinkOutcome, GROUP_BASE_PORT,
};
use bridge_daemon::routing::RoutingLink;
use bridge_daemon::rtp::Ipv4;
use bridge_daemon::targets::{PwSinkLiveness, PwSinkStatus};

fn link(source: &str, output: &str) -> RoutingLink {
    RoutingLink { source: source.to_string(), output: output.to_string() }
}

fn node(name: &str) -> GlobalProps {
    GlobalProps {
        node_name: Some(name.to_string()),
        media_class: None,
        port_name: None,
        node_id: None,
        port_direction: None,
        link_output_node: None,
        link_input_node: None,
        link_output_port: None,
        link_input_port: None,
    }
}

// ---- the graph ----------------------------------------------------------------------------------

#[test]
fn a_global_is_a_node_a_port_a_link_or_nothing() {
    let mut reg = RegistryState::new();
    assert!(reg.add_global(1, node("a")));
    let mut port = node("x");
    port.node_name = None;
    port.port_name = Some("out_FL".to_string());
    port.port_direction = Some("out".to_string());
    port.node_id = Some("not a number".to_string());
    assert!(!reg.add_global(2, GlobalProps { node_id: Some("not a number".to_string()), ..port }));
    let mut wire = node("x");
    wire.node_name = None;
    wire.link_output_node = Some("1".to_string());
    wire.link_input_node = Some("5".to_string());
    assert!(reg.add_global(3, wire));
    assert!(reg.node_has_incoming_link(5));
    assert!(!reg.node_has_incoming_link(1));
    assert_eq!(reg.links_between(1, 5), vec![3]);
    assert_eq!(reg.links.get(3).unwrap().output_port, 0);
    // What is removed leaves no trace.
    reg.remove_global(3);
    assert!(!reg.node_has_incoming_link(5));
    reg.remove_global(1);
    assert_eq!(reg.nodes.len(), 0);
}

#[test]
fn link_replies_name_every_port() {
    let spec = |o: u32, i: u32| LinkSpec { out_node: 1, out_port: o, in_node: 2, in_port: i };
    let specs = vec![spec(11, 21), spec(12, 22)];
    assert_eq!(
        create_links_reply(&specs, &vec![LinkOutcome::Linked, LinkOutcome::AlreadyLinked]),
        Ok("linked port 11 -> 21; ports 12 -> 22 already linked".to_string())
    );
    assert_eq!(
        create_links_reply(&specs, &vec![LinkOutcome::Failed("busy".to_string()), LinkOutcome::Linked]),
        Err("failed to link port 11 -> 21: busy; linked port 12 -> 22".to_string())
    );
    assert_eq!(destroy_links_reply(&vec![4, 7]), "removed link 4; removed link 7");
}

#[test]
fn a_module_is_loaded_once() {
    let mut table = ModuleTable::new();
    assert_eq!(table.check_load("rtp-in-1"), Ok(()));
    table.note_loaded("rtp-in-1".to_string());
    assert_eq!(table.check_load("rtp-in-1"), Err("a module for 'rtp-in-1' is already loaded".to_string()));
    assert!(table.unload("rtp-in-1"));
    assert!(!table.unload("rtp-in-1"));
}

#[test]
fn profiling_follows_the_profiler() {
    let mut p = Profiler::new();
    assert_eq!(p.request(true), ProfilingAction::NoProfiler);
    p.appeared(9);
    assert_eq!(p.request(true), ProfilingAction::Bind(9));
    p.bound(false);
    assert_eq!(p.request(true), ProfilingAction::Bind(9));
    p.bound(true);
    assert_eq!(p.request(true), ProfilingAction::Nothing);
    assert!(!p.removed(8));
    assert_eq!(p.request(false), ProfilingAction::Drop);
    assert_eq!(p.request(false), ProfilingAction::Nothing);
    p.bound(true);
    assert!(p.removed(9));
    assert_eq!(p.request(true), ProfilingAction::NoProfiler);
}

// ---- meters -------------------------------------------------------------------------------------

#[test]
fn the_peak_is_the_greatest_distance_from_zero() {
    let bytes = |v: &[f32]| v.iter().flat_map(|f| f.to_le_bytes()).collect::<Vec<u8>>();
    assert_eq!(peak_of(&bytes(&[0.25, -0.75, 0.5])), 0.75f32.to_bits());
    assert_eq!(peak_of(&bytes(&[0.1, f32::NAN, -0.2])), 0.2f32.to_bits());
    assert_eq!(peak_of(&bytes(&[f32::NEG_INFINITY, 1.0])), f32::INFINITY.to_bits());
    assert_eq!(peak_of(&bytes(&[-0.0])), 0);
    assert_eq!(peak_of(&[]), 0);
    assert_eq!(peak_of(&[1, 2, 3]), 0);
}

#[test]
fn a_buffer_holds_what_its_chunk_says_and_no_more() {
    assert_eq!(captured(0, 100, 200), Some((0, 100)));
    assert_eq!(captured(50, 100, 120), Some((50, 120)));
    assert_eq!(captured(50, 0, 120), None);
    assert_eq!(captured(300, 10, 120), None);
    assert_eq!(captured(u32::MAX, u32::MAX, 120), None);
}

#[test]
fn an_empty_chunk_measures_as_silence() {
    let buffer: Vec<u8> = [0.25f32, -0.5, 0.125].iter().flat_map(|v| v.to_le_bytes()).collect();
    assert_eq!(tap_peak(0, 12, &buffer), 0.5f32.to_bits());
    assert_eq!(tap_peak(8, 4, &buffer), 0.125f32.to_bits());
    assert_eq!(tap_peak(8, 400, &buffer), 0.125f32.to_bits());
    assert_eq!(tap_peak(0, 0, &buffer), 0);
    assert_eq!(tap_peak(12, 4, &buffer), 0);
    assert_eq!(tap_peak(0, 0, &[]), 0);
}

#[test]
fn sources_are_tapped_only_while_somebody_watches() {
    let mut hub = MeterHub::new();
    let wanted = vec![("airplay-in".to_string(), 5u32), ("rtp-in-1".to_string(), 6)];
    hub.reconcile_sources(&wanted);
    assert!(!hub.needs_tap("airplay-in"));
    hub.watch();
    hub.watch();
    for (name, id) in &wanted {
        assert!(hub.needs_tap(name));
        hub.tap_started(name, *id);
    }
    hub.measured("airplay-in", 0.5f32.to_bits());
    assert_eq!(hub.peak("airplay-in"), 0.5f32.to_bits());
    assert_eq!(hub.peak("nobody"), 0);
    // A source that came back as another node is tapped anew.
    hub.reconcile_sources(&vec![("airplay-in".to_string(), 50)]);
    assert!(hub.needs_tap("airplay-in") && hub.needs_tap("rtp-in-1"));
    hub.tap_started("airplay-in", 50);
    hub.unwatch();
    assert!(!hub.needs_tap("airplay-in"));
    hub.unwatch();
    assert!(hub.taps.is_empty());
    hub.unwatch();
    assert_eq!(hub.watchers, 0);
}

#[test]
fn the_first_watcher_arms_and_the_last_one_disarms() {
    let mut w = Watchers { count: 0 };
    assert!(w.enter());
    assert!(!w.enter());
    assert!(!w.leave());
    assert!(w.leave());
}

#[test]
fn dropped_cycles_are_read_off_a_profile() {
    let block = |kind, name: &str, xruns: i32| {
        let mut fields = vec![Field::Int(3), Field::Text(name.to_string())];
        for _ in 0..6 {
            fields.push(Field::Other);
        }
        fields.push(Field::Int(xruns));
        Block { kind, fields: Some(fields) }
    };
    assert!(new_xruns().is_empty());
    let m = on_profile(&vec![
        block(BlockKind::Driver, "driver", 4),
        block(BlockKind::Follower, "airplay-in", -2),
        block(BlockKind::Other, "clock", 9),
        block(BlockKind::Follower, "driver", 5),
        Block { kind: BlockKind::Follower, fields: Some(vec![Field::Int(1), Field::Text("short".to_string())]) },
        Block { kind: BlockKind::Follower, fields: None },
    ]);
    assert_eq!(m.keys(), vec!["airplay-in", "driver"]);
    assert_eq!(m.get("airplay-in"), Some(&0));
    assert_eq!(m.get("driver"), Some(&5));
}

// ---- the feed -----------------------------------------------------------------------------------

#[test]
fn a_payload_is_sent_once() {
    let mut sent = SentListings::new();
    assert!(sent.push_if_changed(Slot::Matrix, "{}"));
    assert!(!sent.push_if_changed(Slot::Matrix, "{}"));
    assert!(sent.push_if_changed(Slot::Agents, "{}"));
    assert!(sent.push_if_changed(Slot::Matrix, "{1}"));
    assert!(sent.push_if_changed(Slot::Matrix, "{}"));
}

#[test]
fn a_client_is_served_until_it_leaves() {
    let (s, a) = feed_next(FeedState::Fresh, FeedEvent::Opened);
    assert_eq!(a, vec![FeedAction::Watch, FeedAction::PushMatrix, FeedAction::PushListings]);
    let (s, a) = feed_next(s, FeedEvent::Tick);
    assert_eq!(a, vec![FeedAction::PushMeters]);
    // A burst of changes costs one look at the listings.
    let (s, a) = feed_next(s, FeedEvent::Changed);
    assert_eq!(a, vec![FeedAction::PushMatrix]);
    let (s, _) = feed_next(s, FeedEvent::Changed);
    let (s, a) = feed_next(s, FeedEvent::Tick);
    assert_eq!(a, vec![FeedAction::PushMeters, FeedAction::PushListings]);
    let (s, a) = feed_next(s, FeedEvent::Heard);
    assert!(a.is_empty());
    let (s, a) = feed_next(s, FeedEvent::SendFailed);
    assert_eq!(a, vec![FeedAction::Unwatch]);
    // Watching ends once.
    assert_eq!(feed_next(s, FeedEvent::Left), (FeedState::Closed, vec![]));
    assert_eq!(feed_next(FeedState::Fresh, FeedEvent::Left), (FeedState::Fresh, vec![]));
    assert_eq!(feed_next(FeedState::Open { listings_dirty: true }, FeedEvent::NoMoreChanges), (FeedState::Closed, vec![FeedAction::Unwatch]));
}

// ---- remote hosts -------------------------------------------------------------------------------

fn host(name: &str, port: u16) -> PwSinkMember {
    PwSinkMember { node_name: name.to_string(), control_port: port, playout_ms: 100 }
}

#[test]
fn every_host_gets_a_session_of_its_own() {
    let plans = session_plans(&vec![host("pwsink-dev-office", 6200), host("pwsink-dev-attic", 6202)]).ok().unwrap();
    assert_eq!(plans[0].session_name, "pwrouter-office");
    assert_eq!(plans[1].session_name, "pwrouter-attic");
    assert_eq!((plans[1].control_port, plans[1].playout_ms), (6202, 100));
    assert_eq!(session_plans(&vec![]).err().unwrap(), "pwsink_server::start called with no members");
    assert_eq!(HostRelay::new(&plans, &vec![false, false]).err().unwrap(), "pw-sink group: no senders started");
    assert_eq!(HostRelay::new(&plans, &vec![false, true]).ok().unwrap().names, vec!["pwsink-dev-attic"]);
}

#[test]
fn a_host_that_loses_audio_is_named() {
    let plans = session_plans(&vec![host("pwsink-dev-office", 6200), host("pwsink-dev-attic", 6202)]).ok().unwrap();
    let mut relay = HostRelay::new(&plans, &vec![true, true]).ok().unwrap();
    assert_eq!(HostRelay::chunk_for(&[1, 0, 255, 255, 9], None), vec![1, -1]);
    assert_eq!(HostRelay::chunk_for(&[1, 0], Some(&[0, 128])), vec![-32768]);
    assert_eq!(relay.report(DROP_REPORT_MS), None);
    relay.note_dropped(0);
    relay.note_dropped(0);
    assert_eq!(relay.report(DROP_REPORT_MS - 1), None);
    relay.note_dropped(1);
    assert_eq!(relay.report(DROP_REPORT_MS).as_deref(), Some("pwsink-dev-office: 2, pwsink-dev-attic: 1"));
    assert_eq!(relay.report(DROP_REPORT_MS), None);
}

#[test]
fn handshakes_are_published_until_the_last_sender_is_gone() {
    let mut live = PwSinkLiveness::new();
    let up = PwSinkStatus { established: true, peer_count: 1 };
    let seen = vec![("pwsink-dev-a".to_string(), Some(up)), ("pwsink-dev-b".to_string(), None)];
    assert_eq!(publish_statuses(&mut live, &seen), (true, true));
    assert!(live.established("pwsink-dev-a"));
    assert_eq!(publish_statuses(&mut live, &seen), (true, false));
    assert_eq!(publish_statuses(&mut live, &vec![("pwsink-dev-a".to_string(), None)]), (false, true));
    assert_eq!(live.get("pwsink-dev-a"), None);
}

// ---- RTP to RAOP --------------------------------------------------------------------------------

#[test]
fn rtp_reaches_raop_by_way_of_the_anchor() {
    assert!(source_needs_raop_anchor("rtp-in-1") && !source_needs_raop_anchor("airplay-in"));
    assert!(is_raop_output("raop-out-bath") && !is_raop_output("ap2-dev-bath"));
    let intent = vec![
        link("rtp-in-2", "raop-out-bath"),
        link("rtp-in-1", "raop-out-bath"),
        link("airplay-in", "raop-out-attic"),
        link("rtp-in-1", "sendspin-dev-x"),
    ];
    let mut reg = RegistryState::new();
    let plan = anchor_plan(&intent, &reg);
    assert_eq!(plan.step, AnchorStep::Create);
    assert_eq!(plan.sources, vec!["rtp-in-1", "rtp-in-2"]);
    assert_eq!(plan.targets, vec!["raop-out-bath"]);
    let wires: Vec<(String, String, bool)> = plan.wiring().into_iter().map(|w| (w.source, w.output, w.monitor)).collect();
    let anchor = ANCHOR_NODE_NAME.to_string();
    assert_eq!(
        wires,
        vec![
            ("rtp-in-1".to_string(), anchor.clone(), false),
            ("rtp-in-2".to_string(), anchor.clone(), false),
            (anchor.clone(), "raop-out-bath".to_string(), true),
        ]
    );
    assert_eq!(anchor_plan(&[], &reg).step, AnchorStep::Leave);
    reg.add_global(77, node(ANCHOR_NODE_NAME));
    assert_eq!(anchor_plan(&intent, &reg).step, AnchorStep::Wire);
    assert_eq!(anchor_plan(&[], &reg).step, AnchorStep::Destroy { node_id: 77 });
}

// ---- groups of devices --------------------------------------------------------------------------

fn device(label: &str) -> SendspinDevice {
    SendspinDevice {
        fullname: format!("{label}._sendspin._tcp.local."),
        display_name: label.to_string(),
        addr: None,
        present: true,
        url: None,
        supported_codecs: Vec::new(),
        min_buffer_ms: None,
        required_lead_time_ms: None,
    }
}

#[test]
fn devices_with_the_same_sources_play_together() {
    let mut devices = NameMap::new();
    for d in ["bath", "kitchen", "office"] {
        devices.insert(format!("sendspin-dev-{d}"), device(d));
    }
    let intent = vec![
        link("airplay-in", "sendspin-dev-kitchen"),
        link("airplay-in", "sendspin-dev-bath"),
        link("bt-rtp", "sendspin-dev-office"),
        link("bt-rtp", "sendspin-dev-unknown"),
    ];
    let desired = device_groups(&intent, &devices);
    assert_eq!(desired.keys(), vec!["airplay-in", "bt-rtp"]);
    let d = desired.get("airplay-in").unwrap();
    assert_eq!(d.device_node_names, vec!["sendspin-dev-bath", "sendspin-dev-kitchen"]);
    assert_eq!(d.device_fullnames.to_vec(), vec!["bath._sendspin._tcp.local.", "kitchen._sendspin._tcp.local."]);
    assert_eq!(d.sources, vec!["airplay-in"]);

    let mut running = DeviceGroups::new();
    let mut ports = Vec::new();
    for i in 0..desired.len() {
        let (key, d) = (desired.key_at(i), desired.value_at(i));
        let start = running.start_for(key, d).unwrap();
        assert!(start.sink_node_name.starts_with("sendspin-grp-"));
        ports.push((start.port, start.display.clone()));
        running.started(key, d, start, 40 + i as u64);
        assert!(running.start_for(key, d).is_none());
    }
    assert_eq!(ports, vec![(GROUP_BASE_PORT, "group: bath, kitchen".to_string()), (GROUP_BASE_PORT + 1, "group: office".to_string())]);
    assert!(running.end_stale(&desired).is_empty());
    // A change of members is a new group, a route that is gone none at all.
    let fewer = device_groups(&[link("airplay-in", "sendspin-dev-kitchen")], &devices);
    assert_eq!(running.end_stale(&fewer), vec![40, 41]);
}

// ---- announcements ------------------------------------------------------------------------------

fn unavailable(t: &AnnounceTransport) -> String {
    match t {
        AnnounceTransport::Unavailable(why) => why.clone(),
        _ => panic!("expected a reason"),
    }
}

#[test]
fn an_announcement_opens_a_session_and_keeps_it_while_it_is_used() {
    let mut r = GroupReconciler::new();
    let nobody = NameSet::new();
    let quiet = PwSinkLiveness::new();
    let out = "ap2-dev-dusche";
    assert!(matches!(r.ensure_announce_transport(out, &nobody, &quiet, Vec::new(), 0), AnnounceDecision::OpenAp2));
    assert!(matches!(r.session_opened(out, 5, SessionTransport::Ap2(31), 0, 30_000), AnnounceTransport::Starting));
    // A second clip renews the lease.
    assert!(matches!(
        r.ensure_announce_transport(out, &nobody, &quiet, Vec::new(), 10_000),
        AnnounceDecision::Use(AnnounceTransport::Warm)
    ));
    assert!(r.poll_announce_sessions(&nobody, 30_001).is_empty());
    let mut used = NameSet::new();
    used.insert(out.to_string());
    assert!(r.poll_announce_sessions(&used, 100_000).is_empty());
    assert!(r.poll_announce_sessions(&nobody, 129_999).is_empty());
    let ended = r.poll_announce_sessions(&nobody, 130_000);
    assert!(matches!(ended[0], Action::DropAp2 { sender: 31 }));
    assert!(matches!(&ended[1], Action::ClearRate { output } if output == out));
    assert!(matches!(ended[2], Action::DestroySink { node_id: 5 }));
    assert!(r.announce_sessions.is_empty());
    assert!(r.drop_announce_session(out).is_empty());
}

#[test]
fn an_output_that_cannot_be_announced_to_says_why() {
    let mut r = GroupReconciler::new();
    let nobody = NameSet::new();
    let quiet = PwSinkLiveness::new();
    let mut why = |output: &str, intent: Vec<RoutingLink>| match r.ensure_announce_transport(output, &nobody, &quiet, intent, 0) {
        AnnounceDecision::Use(t) => unavailable(&t),
        _ => panic!("nothing to open"),
    };
    assert!(why("sendspin-dev-kitchen", Vec::new()).contains("offline"));
    assert_eq!(
        why("ap2-dev-dusche", vec![link("airplay-in", "ap2-dev-dusche")]),
        "routed, but its AirPlay-2 sender isn't streaming (receiver unreachable, or still connecting)"
    );
    assert!(why("pwsink-dev-x", vec![link("airplay-in", "pwsink-dev-x")]).starts_with("routed, but no receiver has connected"));
}

#[test]
fn a_session_can_fail_to_open_in_several_ways() {
    assert_eq!(unavailable(&ap2_announce_target(None).unwrap_err()), "unknown AirPlay-2 receiver");
    let mut d = Ap2Device {
        fullname: "x".to_string(),
        display_name: "x".to_string(),
        model: None,
        features: None,
        addr: None,
        present: false,
    };
    assert_eq!(unavailable(&ap2_announce_target(Some(&d)).unwrap_err()), "receiver is offline");
    d.present = true;
    assert_eq!(unavailable(&ap2_announce_target(Some(&d)).unwrap_err()), "receiver has no resolved address yet");
    let ip = Ip::V4(Ipv4 { a: 10, b: 0, c: 0, d: 9 });
    d.addr = Some((ip, 7000));
    assert!(matches!(ap2_announce_target(Some(&d)), Ok(found) if found == ip));
    assert_eq!(unavailable(&open_failed(OpenStep::Clock, "no clock")), "AP2 PTP grandmaster unavailable: no clock");
    assert!(matches!(announce_sink("ap2-dev-x", SinkOutcome::Ready(4)), Ok(4)));
    assert_eq!(
        unavailable(&announce_sink("ap2-dev-x", SinkOutcome::NotSeen).unwrap_err()),
        "announce sink 'idle-dev-ap2-x' did not appear in the graph"
    );
    assert_eq!(
        unavailable(&announce_sink("ap2-dev-x", SinkOutcome::NotCreated).unwrap_err()),
        "failed to create announce sink 'idle-dev-ap2-x'"
    );
    assert_eq!(unavailable(&announce_sink("ap2-dev-x", SinkOutcome::Unreachable).unwrap_err()), "PipeWire thread unavailable");
    let r = GroupReconciler::new();
    assert!(matches!(r.pwsink_announce_port(true), Ok(p) if p == PWSINK_BASE_PORT));
    assert_eq!(unavailable(&r.pwsink_announce_port(false).unwrap_err()), "no receiver agent is connected for this host");
    assert_eq!(ap2_linger_ms(None, 1900), 30_000);
    assert_eq!(ap2_linger_ms(Some(40_000), 1900), 42_000);
}

// ---- liveness -----------------------------------------------------------------------------------

#[test]
fn a_silent_device_is_demoted_and_then_forgotten() {
    let mut devices = NameMap::new();
    devices.insert("sendspin-dev-bath".to_string(), device("bath"));
    let mut tracker = LivenessTracker::new();
    for i in 1..FAIL_THRESHOLD {
        let j = tracker.judge("sendspin-dev-bath", true, false, i as u64 * 12_000);
        assert!(j.set_present.is_none() && !j.remove);
    }
    let down = tracker.judge("sendspin-dev-bath", true, false, 100_000);
    assert_eq!(down.set_present, Some(false));
    set_present(&mut devices, "sendspin-dev-bath", false);
    assert!(!devices.get("sendspin-dev-bath").unwrap().present);
    assert!(!tracker.judge("sendspin-dev-bath", false, false, 100_000 + REMOVE_AFTER_MS - 1).remove);
    assert!(tracker.judge("sendspin-dev-bath", false, false, 100_000 + REMOVE_AFTER_MS).remove);
    let back = tracker.judge("sendspin-dev-bath", false, true, 500_000);
    assert_eq!(back.set_present, Some(true));
    assert!(!tracker.judge("sendspin-dev-bath", true, false, 501_000).remove);
}
