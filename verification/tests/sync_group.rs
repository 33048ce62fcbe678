use bridge_daemon::agents::{Agents, HelloClaim, PROTOCOL_VERSION};
use bridge_daemon::announce::{
    announce_sink_name, next_free_pwsink_ports, no_transport_reason, supports_on_demand_announce, AnnounceTransport, PWSINK_BASE_PORT,
};
use bridge_daemon::codec::DEFAULT_OPUS_FLOOR_MS;
use bridge_daemon::devices::{Ap2Device, Ip, SendspinDevice};
use bridge_daemon::groups::{compute_desired, group_hash, source_key, SyncSettings};
use bridge_daemon::maps::{NameMap, NameSet};
use bridge_daemon::names::{AP2_DEV_PREFIX, PWSINK_DEV_PREFIX, SENDSPIN_DEV_PREFIX, SYNC_GRP_PREFIX};
use bridge_daemon::pass::{Pass, Scene};
use bridge_daemon::reconciler::{
    sendspin_config_changed, sendspin_lead_rearm, sendspin_server_action, Action, Event, GroupReconciler, IdleSender, RunningGroup,
    SendspinServerState, ServerAction, ALIGN_HOLD_SOURCE, GROUP_BASE_PORT,
};
use bridge_daemon::routing::{source_set_of, RoutingLink};
use bridge_daemon::rtp::Ipv4;
use bridge_daemon::sendspin::{required_send_ahead_us, StreamPolicy};
use bridge_daemon::targets::PwSinkLiveness;

fn strings(list: &[&str]) -> Vec<String> {
    list.iter().map(|s| s.to_string()).collect()
}

/// A running group with the given members and no live handles — enough to
/// exercise the "is something streaming this output?" bookkeeping.
fn running_group(sendspin: &[&str], ap2: &[&str], pwsink: &[&str]) -> RunningGroup {
    RunningGroup {
        anchor_node_name: "sync-grp-test".into(),
        anchor_node_id: 1,
        port: GROUP_BASE_PORT,
        server: None,
        server_devices: strings(sendspin),
        server_members: Vec::new(),
        server_codec: "pcm",
        server_send_ahead_us: 0,
        force_device_reconnect: NameSet::new(),
        ap2_sender: None,
        ap2_members: strings(ap2),
        ap2_rate: 48_000,
        pwsink_server: None,
        pwsink_members: strings(pwsink),
        pwsink_ports: Vec::new(),
    }
}

#[test]
fn membership_alone_does_not_restart_the_sendspin_server() {
    let running = |config_changed| sendspin_server_action(SendspinServerState { routed: true, have_server: true, config_changed });
    // A join or a departure changes neither the codec nor the send-ahead, so the
    // stream config is unchanged — and the server keeps running.
    assert_eq!(running(false), ServerAction::KeepRunning);
    // A codec or send-ahead change is a genuinely different stream; this one has to
    // restart.
    assert_eq!(running(true), ServerAction::Start);
}

fn link(source: &str, output: &str) -> RoutingLink {
    RoutingLink { source: source.to_string(), output: output.to_string() }
}

fn held(outputs: &[&str]) -> NameSet {
    let mut out = NameSet::new();
    for o in outputs {
        out.insert(o.to_string());
    }
    out
}

#[test]
fn without_a_hold_the_intent_passes_through_unchanged() {
    let r = GroupReconciler::new();
    let intent = vec![link("airplay-in", "sendspin-dev-kitchen"), link("bt-rtp", "ap2-dev-dusche")];
    assert_eq!(r.effective_intent(intent.clone()), intent);
    assert!(r.align_hold_outputs().is_empty());
}

fn device(label: &str, url: Option<&str>) -> SendspinDevice {
    SendspinDevice {
        fullname: format!("{label}._sendspin._tcp.local."),
        display_name: label.to_string(),
        addr: None,
        present: true,
        url: url.map(str::to_string),
        supported_codecs: Vec::new(),
        min_buffer_ms: None,
        required_lead_time_ms: None,
    }
}

fn receiver(label: &str) -> Ap2Device {
    Ap2Device {
        fullname: format!("{label}._airplay._tcp.local."),
        display_name: label.to_string(),
        model: None,
        features: None,
        addr: Some((Ip::V4(Ipv4 { a: 10, b: 0, c: 0, d: 5 }), 7000)),
        present: true,
    }
}

fn one<V>(key: &str, value: V) -> NameMap<V> {
    let mut out = NameMap::new();
    out.insert(key.to_string(), value);
    out
}

#[test]
fn a_hold_displaces_the_held_outputs_and_gives_them_one_group() {
    let mut r = GroupReconciler::new();
    let intent = vec![
        link("airplay-in", "sendspin-dev-kitchen"),
        link("airplay-in", "sendspin-dev-bath"), // same group as kitchen today
        link("bt-rtp", "ap2-dev-dusche"),        // a different group
        link("bt-rtp", "sendspin-dev-office"),   // not selected: must be untouched
    ];
    // A selection spanning two existing groups and leaving members behind — the
    // case an existing source set could never express.
    r.set_align_hold(1, held(&["sendspin-dev-kitchen", "ap2-dev-dusche"]));
    let eff = r.effective_intent(intent.clone());

    // Nothing feeds a held output but the synthetic source...
    for output in ["sendspin-dev-kitchen", "ap2-dev-dusche"] {
        let sources = source_set_of(&eff, output);
        assert_eq!(sources.to_vec(), vec![ALIGN_HOLD_SOURCE], "{output}");
    }
    // ...and the outputs left behind keep exactly the routing they had.
    assert_eq!(source_set_of(&eff, "sendspin-dev-bath").to_vec(), source_set_of(&intent, "sendspin-dev-bath").to_vec());
    assert_eq!(source_set_of(&eff, "sendspin-dev-office").to_vec(), source_set_of(&intent, "sendspin-dev-office").to_vec());

    // And that source set materialises as ONE group holding exactly the selection.
    let devices = one("sendspin-dev-kitchen", device("kitchen", Some("ws://k")));
    let ap2 = one("ap2-dev-dusche", receiver("Dusche"));
    let desired = compute_desired(&eff, &devices, &ap2, &NameMap::new(), &NameMap::new());
    let align = desired.get(ALIGN_HOLD_SOURCE).expect("the held group exists");
    assert_eq!(align.sendspin_node_names, vec!["sendspin-dev-kitchen".to_string()]);
    assert_eq!(align.ap2_members.iter().map(|m| m.node_name.as_str()).collect::<Vec<_>>(), vec!["ap2-dev-dusche"]);
    // The kitchen speaker is in NO other group, which is what "exclusive" means
    // for music: its old group can't reach it.
    for i in 0..desired.len() {
        let key = desired.key_at(i);
        if key != ALIGN_HOLD_SOURCE {
            assert!(!desired.value_at(i).sendspin_node_names.contains(&"sendspin-dev-kitchen".to_string()), "still in group {key}");
        }
    }
}

#[test]
fn clearing_the_hold_restores_the_intent_exactly() {
    let mut r = GroupReconciler::new();
    let intent = vec![link("airplay-in", "sendspin-dev-kitchen"), link("bt-rtp", "ap2-dev-dusche")];
    r.set_align_hold(1, held(&["sendspin-dev-kitchen"]));
    assert_ne!(r.effective_intent(intent.clone()), intent);
    r.clear_align_hold(1);
    assert_eq!(r.effective_intent(intent.clone()), intent);
    assert!(r.align_hold_outputs().is_empty());
    // Idempotent: every teardown path may call it, including twice.
    r.clear_align_hold(1);
    assert_eq!(r.effective_intent(intent.clone()), intent);
}

#[test]
fn clearing_is_id_guarded_and_an_empty_set_is_no_hold() {
    let mut r = GroupReconciler::new();
    r.set_align_hold(1, held(&["sendspin-dev-kitchen"]));
    r.set_align_hold(2, held(&["ap2-dev-dusche"]));
    // The first session's safety timeout firing late must not free the second's
    // speakers while it is still measuring them.
    r.clear_align_hold(1);
    assert_eq!(r.align_hold_outputs().to_vec(), held(&["ap2-dev-dusche"]).to_vec());
    r.clear_align_hold(2);
    assert!(r.align_hold_outputs().is_empty());
    r.set_align_hold(3, NameSet::new());
    assert!(r.align_hold_outputs().is_empty(), "holding nothing is not a hold");
}

#[test]
fn the_server_follows_whether_anything_is_routed() {
    let state = |routed, have_server| SendspinServerState { routed, have_server, config_changed: false };
    // First device routed here ⇒ stand a server up.
    assert_eq!(sendspin_server_action(state(true, false)), ServerAction::Start);
    // Last device unrouted ⇒ take it down (and release its port + advert).
    assert_eq!(sendspin_server_action(state(false, true)), ServerAction::Stop);
    // Nothing either way ⇒ nothing to do; a group can be AP2-only.
    assert_eq!(sendspin_server_action(state(false, false)), ServerAction::Idle);
}

/// A two-member Opus group's send-ahead, from the real resolver: `bath` reports a
/// 300 ms buffer requirement and sets the group's floor, `kitchen` only 100 ms.
fn group_lead_us(kitchen_delay_ms: u16, bath_delay_ms: u16) -> i64 {
    required_send_ahead_us(
        100_000, // the user's configured group lead
        "opus",
        DEFAULT_OPUS_FLOOR_MS,
        // Both report, so the Opus floor above is bypassed either way.
        &vec![(Some(100), kitchen_delay_ms), (Some(300), bath_delay_ms)],
    )
}

#[test]
fn a_static_delay_change_within_the_running_lead_touches_only_that_device() {
    let running_lead = group_lead_us(0, 0);
    assert_eq!(running_lead, 300_000, "bath's 300 ms requirement sets the group floor");

    // Giving kitchen 40 ms leaves its own requirement (100 + 40) well under bath's,
    // so the group's send-ahead — the one thing every member shares — is untouched.
    assert_eq!(group_lead_us(40, 0), running_lead);
    assert!(!sendspin_config_changed("opus", running_lead, "opus", group_lead_us(40, 0)));

    // A *reduction* can't move it either, because the running lead is a high-water
    // mark: dropping bath to 0 lowers the requirement, and we keep the larger lead
    // rather than reconnect everyone to save latency.
    assert!(!sendspin_config_changed("opus", group_lead_us(0, 200), "opus", group_lead_us(0, 0)));

    // So the reconcile keeps the server exactly as it is...
    assert_eq!(
        sendspin_server_action(SendspinServerState { routed: true, have_server: true, config_changed: false }),
        ServerAction::KeepRunning
    );
    // ...and the edit is carried by a per-device reconnect instead.
    let mut r = GroupReconciler::new();
    r.running.insert("src".into(), running_group(&["sendspin-dev-kitchen", "sendspin-dev-bath"], &[], &[]));
    assert!(r.force_device_reconnect("sendspin-dev-kitchen"));
    let marked = &r.running.get("src").unwrap().force_device_reconnect;
    assert_eq!(marked.to_vec(), vec!["sendspin-dev-kitchen"], "bath must be left streaming");
}

#[test]
fn a_static_delay_change_that_raises_the_group_lead_re_arms_every_member() {
    let running_lead = group_lead_us(0, 0);
    // 250 ms on kitchen puts its own requirement (100 + 250) above bath's 300, so
    // the high-water mark moves — and the send-ahead is fixed when the shared
    // timeline is constructed, so every member's timing changes with it.
    let raised = group_lead_us(250, 0);
    assert_eq!(raised, 350_000);
    assert!(sendspin_config_changed("opus", running_lead, "opus", raised));
    assert_eq!(sendspin_server_action(SendspinServerState { routed: true, have_server: true, config_changed: true }), ServerAction::Start);
}

#[test]
fn a_lead_rearm_is_the_only_thing_that_lowers_a_running_send_ahead() {
    let running = 930_000;
    let wanted = 130_000;
    // The ordinary rule ignores a drop, on purpose.
    assert!(!sendspin_config_changed("opus", running, "opus", wanted));
    // An explicit re-arm honours it.
    assert!(sendspin_lead_rearm(true, running, wanted));
    // Without one, nothing changes — the flag is what carries the user's intent.
    assert!(!sendspin_lead_rearm(false, running, wanted));
    // A re-arm whose value matches what is already streaming must NOT reconnect
    // anyone.
    assert!(!sendspin_lead_rearm(true, running, running));
    // It works upward too, which costs nothing extra — that case restarts anyway.
    assert!(sendspin_lead_rearm(true, wanted, running));
}

#[test]
fn only_a_group_with_a_live_server_reports_a_running_lead() {
    let mut r = GroupReconciler::new();
    let mut g = running_group(&["sendspin-dev-kitchen"], &[], &[]);
    g.server_send_ahead_us = 930_000; // what it *was* started with
    r.running.insert("src".into(), g);
    // `server: None` (this group's server is stopped) ⇒ nothing is in force.
    assert!(r.running_sendspin_leads().is_empty());
    // And a re-arm reports how many servers it would restart — none here.
    assert_eq!(r.rearm_lead(), 0);
}

#[test]
fn a_forced_reconnect_is_scoped_to_one_device_and_one_group() {
    let mut r = GroupReconciler::new();
    r.running.insert("radio".into(), running_group(&["sendspin-dev-kitchen"], &[], &[]));
    r.running.insert("tv".into(), running_group(&["sendspin-dev-office"], &["ap2-dev-dusche"], &[]));

    assert!(r.force_device_reconnect("sendspin-dev-office"));
    assert!(r.running.get("radio").unwrap().force_device_reconnect.is_empty(), "the other group must not be touched");
    assert_eq!(r.running.get("tv").unwrap().force_device_reconnect.len(), 1);

    // A device no running group has: there is nothing to mark and the caller is told
    // so.
    assert!(!r.force_device_reconnect("sendspin-dev-nowhere"));
    assert_eq!(r.running.get("tv").unwrap().force_device_reconnect.len(), 1);
}

#[test]
fn announce_sink_names_are_distinct_from_outputs_and_anchors() {
    for (output, expected) in [("ap2-dev-dusche", "idle-dev-ap2-dusche"), ("pwsink-dev-office", "idle-dev-pwsink-office")] {
        let name = announce_sink_name(output);
        assert_eq!(name, expected);
        // Routing must never mistake it for an output or a sync anchor.
        assert!(!name.starts_with(AP2_DEV_PREFIX));
        assert!(!name.starts_with(SENDSPIN_DEV_PREFIX));
        assert!(!name.starts_with(PWSINK_DEV_PREFIX));
        assert!(!name.starts_with(SYNC_GRP_PREFIX));
    }
}

#[test]
fn has_live_sender_uses_membership_for_sendspin_and_real_state_for_dialed_backends() {
    let mut r = GroupReconciler::new();
    r.running
        .insert("src".into(), running_group(&["sendspin-dev-kitchen"], &["ap2-dev-dusche", "ap2-dev-pioneer"], &["pwsink-dev-office"]));
    let connected = held(&["ap2-dev-dusche"]);
    let nobody = PwSinkLiveness::new();
    assert!(r.has_live_sender("sendspin-dev-kitchen", &connected, &nobody));
    assert!(r.has_live_sender("ap2-dev-dusche", &connected, &nobody));
    // Routed (a dialed group member) but its session never came up: an overlay
    // dropped on it would go nowhere, so this must NOT read as live.
    assert!(!r.has_live_sender("ap2-dev-pioneer", &connected, &nobody));
    // Same for pw-sink, whose handshake is receiver-initiated: group membership
    // means we advertise a session, not that anyone attached to it.
    assert!(!r.has_live_sender("pwsink-dev-office", &connected, &nobody));
    // Unrouted endpoints have no sender at all — the case that used to make
    // announcements silently disappear.
    assert!(!r.has_live_sender("ap2-dev-bad", &connected, &nobody));
    assert!(!r.has_live_sender("pwsink-dev-bad", &connected, &nobody));
}

#[test]
fn only_the_dialed_backends_get_an_on_demand_transport() {
    assert!(supports_on_demand_announce("ap2-dev-dusche"));
    assert!(supports_on_demand_announce("pwsink-dev-office"));
    assert!(!supports_on_demand_announce("sendspin-dev-kitchen"));
    assert!(!supports_on_demand_announce("some-local-sink"));
    // …and the kinds that don't must explain themselves rather than drop the clip.
    for (output, needle) in [("sendspin-dev-kitchen", "offline"), ("some-local-sink", "no per-device sender")] {
        let msg = no_transport_reason(output);
        assert!(msg.contains(needle), "{output}: {msg:?} lacks {needle:?}");
    }
}

#[test]
fn a_connected_receiver_host_joins_the_group_of_whatever_feeds_it() {
    let mut agents = Agents::new(Vec::new());
    let claim = || HelloClaim {
        protocol: PROTOCOL_VERSION,
        machine_id: "m1",
        hostname: "david-local",
        user: "david",
        token: None,
        pair_code: None,
    };
    // Pair, then reconnect with the token — only a welcomed connection is a target.
    agents.hello(claim(), 1, &[1, 2, 3], &[4, 5]);
    let paired = agents.approve("m1:david", &[6; 24]).0.expect("approve");
    agents.hello(HelloClaim { token: Some(&paired.token), ..claim() }, 2, &[1, 2, 3], &[4, 5]);

    let hosts = agents.connected_targets();
    assert_eq!(hosts.keys(), vec![paired.node_name.clone()], "the registry's key is the pairing's node name");

    // Unrouted: a connected host on its own forms no group and gets no session.
    assert!(compute_desired(&[], &NameMap::new(), &NameMap::new(), &NameMap::new(), &hosts).is_empty());

    // Routed: it becomes a member, which is what starts the pw-sink sender.
    let intent = vec![RoutingLink { source: "bt-bridge-rtp".into(), output: paired.node_name.clone() }];
    let desired = compute_desired(&intent, &NameMap::new(), &NameMap::new(), &NameMap::new(), &hosts);
    assert_eq!(desired.len(), 1, "a routed host must form a group");
    assert_eq!(desired.value_at(0).pwsink_members, vec![paired.node_name]);
}

#[test]
fn pwsink_ports_step_past_pairs_already_taken() {
    // Nothing taken → consecutive control/data pairs from the base.
    assert_eq!(next_free_pwsink_ports(&vec![], 2), vec![PWSINK_BASE_PORT, PWSINK_BASE_PORT + 2]);
    // A group's session holds the first pair (control + data) → step past both.
    assert_eq!(next_free_pwsink_ports(&vec![PWSINK_BASE_PORT], 1), vec![PWSINK_BASE_PORT + 2]);
    // An on-demand announce session's port is fed in the same way, so a group
    // starting afterwards can't be handed the port it's already bound to.
    assert_eq!(
        next_free_pwsink_ports(&vec![PWSINK_BASE_PORT, PWSINK_BASE_PORT + 2], 2),
        vec![PWSINK_BASE_PORT + 4, PWSINK_BASE_PORT + 6]
    );
}

#[test]
fn on_demand_transports_get_the_longer_stall_grace() {
    assert!(AnnounceTransport::Starting.is_on_demand());
    assert!(AnnounceTransport::Warm.is_on_demand());
    assert!(!AnnounceTransport::Live.is_on_demand());
    assert!(!AnnounceTransport::Unavailable("x".into()).is_on_demand());
}

// ---- groups -------------------------------------------------------------------------------------

#[test]
fn a_group_is_named_after_its_sources() {
    let key = source_key(&held(&["bt-rtp", "airplay-in"]));
    assert_eq!(key, "airplay-in\u{1f}bt-rtp");
    let name = group_hash(&key);
    assert_eq!(name.len(), 16);
    assert!(name.chars().all(|c| c.is_ascii_hexdigit() && !c.is_ascii_uppercase()));
    assert_eq!(name, group_hash("airplay-in\u{1f}bt-rtp"));
    assert_ne!(name, group_hash("airplay-in"));
    assert_ne!(name, key);
}

// ---- a pass -------------------------------------------------------------------------------------

fn settings() -> SyncSettings {
    SyncSettings {
        send_ahead_us: 200_000,
        opus_floor_ms: DEFAULT_OPUS_FLOOR_MS,
        sendspin_delays: NameMap::new(),
        sendspin_codecs: NameMap::new(),
        ap2_latencies: NameMap::new(),
        ap2_full_rate: NameSet::new(),
        pwsink_jitters: NameMap::new(),
        pwsink_default_jitter_ms: 100,
    }
}

fn scene(intent: Vec<RoutingLink>, adopted: &[&str], devices: &[&str]) -> Scene {
    let mut found = NameMap::new();
    for d in devices {
        found.insert(format!("sendspin-dev-{d}"), device(d, Some(&format!("ws://{d}"))));
    }
    Scene {
        intent,
        adopted: held(adopted),
        devices: found,
        ap2_devices: NameMap::new(),
        pwsink_hosts: NameMap::new(),
        settings: settings(),
    }
}

/// A name for each action, short enough to compare.
fn label(a: &Action) -> String {
    match a {
        Action::StopServer { server } => format!("stop {server}"),
        Action::StopDevice { server, fullname } => format!("stop {fullname} on {server}"),
        Action::Supervise { server, members } => format!("supervise {} on {server}", members.len()),
        Action::DropAp2 { sender } => format!("drop ap2 {sender}"),
        Action::DropPwSink { server } => format!("drop pwsink {server}"),
        Action::ClearRate { output } => format!("clear {output}"),
        Action::DestroySink { node_id } => format!("destroy {node_id}"),
        Action::Link { source, .. } => format!("link {source}"),
        Action::CreateSink { node_name } => format!("create {}", &node_name[..9]),
        Action::StartServer { port, members, policy, codec, .. } => {
            format!("serve {} on {port} {codec}{}", members.len(), if *policy == StreamPolicy::WhenAnnounced { " idle" } else { "" })
        }
        Action::StartAp2 { members, rate, .. } => format!("ap2 {} at {rate}", members.len()),
        Action::StartPwSink { members, .. } => format!("pwsink {}", members.len()),
    }
}

/// Runs a pass to its end: every sink appears and every sender starts, unless `fail`
/// says otherwise.
fn run(r: &mut GroupReconciler, c: Scene, fail: bool) -> Vec<String> {
    let (mut pass, first) = r.begin_pass(c);
    let mut log: Vec<String> = first.iter().map(label).collect();
    let mut event = Event::Done;
    let mut handle = 100u64;
    let mut steps = 0;
    while !pass.finished() {
        let actions = Pass::next(&mut pass, r, event);
        event = Event::Done;
        for a in &actions {
            log.push(label(a));
            match a {
                Action::CreateSink { .. } => event = Event::Node(Some(7)),
                Action::StartServer { .. } | Action::StartAp2 { .. } | Action::StartPwSink { .. } => {
                    handle += 1;
                    event = Event::Started(if fail { None } else { Some(handle) });
                }
                _ => {}
            }
        }
        steps += 1;
        assert!(steps < 1000, "a pass must end");
    }
    log
}

#[test]
fn a_pass_starts_what_is_routed_and_then_leaves_it_alone() {
    let mut r = GroupReconciler::new();
    let devs = ["bath", "kitchen"];
    let adopted = ["sendspin-dev-kitchen", "sendspin-dev-bath"];
    let routed = || vec![link("airplay-in", "sendspin-dev-kitchen")];
    let log = run(&mut r, scene(routed(), &adopted, &devs), false);
    assert_eq!(
        log,
        vec!["create sync-grp-", "link airplay-in", "serve 1 on 8930 opus", "create idle-dev-", "serve 1 on 8931 opus idle"]
    );
    assert!(!r.retry_wanted());
    assert!(r.has_live_sender("sendspin-dev-kitchen", &NameSet::new(), &PwSinkLiveness::new()));
    // Nothing changed: nothing happens, but for links that are there already.
    assert_eq!(run(&mut r, scene(routed(), &adopted, &devs), false), vec!["link airplay-in"]);
}

#[test]
fn a_newcomer_joins_without_disturbing_the_others() {
    let mut r = GroupReconciler::new();
    let devs = ["bath", "kitchen"];
    let adopted = ["sendspin-dev-kitchen", "sendspin-dev-bath"];
    run(&mut r, scene(vec![link("airplay-in", "sendspin-dev-kitchen")], &adopted, &devs), false);
    // The idle sender of the newcomer ends before its group dials it.
    let both = vec![link("airplay-in", "sendspin-dev-kitchen"), link("airplay-in", "sendspin-dev-bath")];
    assert_eq!(run(&mut r, scene(both, &adopted, &devs), false), vec!["stop 102", "destroy 7", "link airplay-in", "supervise 2 on 101"]);
    // And leaves without disturbing them either.
    assert_eq!(
        run(&mut r, scene(vec![link("airplay-in", "sendspin-dev-bath")], &adopted, &devs), false),
        vec!["link airplay-in", "stop kitchen._sendspin._tcp.local. on 101", "supervise 1 on 101", "create idle-dev-", "serve 1 on 8931 opus idle"]
    );
}

#[test]
fn a_marked_device_is_renewed_alone() {
    let mut r = GroupReconciler::new();
    let devs = ["bath", "kitchen"];
    let adopted = ["sendspin-dev-kitchen", "sendspin-dev-bath"];
    let both = || vec![link("airplay-in", "sendspin-dev-kitchen"), link("airplay-in", "sendspin-dev-bath")];
    run(&mut r, scene(both(), &adopted, &devs), false);
    assert!(r.force_device_reconnect("sendspin-dev-bath"));
    assert_eq!(run(&mut r, scene(both(), &adopted, &devs), false), vec!["link airplay-in", "stop bath._sendspin._tcp.local. on 101"]);
    // The next pass dials it anew.
    assert!(r.retry_wanted());
    assert_eq!(run(&mut r, scene(both(), &adopted, &devs), false), vec!["link airplay-in", "supervise 2 on 101"]);
    assert!(!r.retry_wanted());
}

#[test]
fn what_could_not_be_started_is_tried_again() {
    let mut r = GroupReconciler::new();
    let intent = || vec![link("airplay-in", "sendspin-dev-kitchen")];
    run(&mut r, scene(intent(), &["sendspin-dev-kitchen"], &["kitchen"]), true);
    assert!(r.retry_wanted());
    let log = run(&mut r, scene(intent(), &["sendspin-dev-kitchen"], &["kitchen"]), false);
    assert_eq!(log, vec!["link airplay-in", "serve 1 on 8930 opus"]);
    assert!(!r.retry_wanted());
}

#[test]
fn nothing_is_connected_that_was_not_added() {
    let mut r = GroupReconciler::new();
    let log = run(&mut r, scene(vec![link("airplay-in", "sendspin-dev-kitchen")], &[], &["kitchen"]), false);
    assert!(log.is_empty());
    assert!(r.running.is_empty() && r.idle_senders.is_empty());
}

#[test]
fn receivers_and_hosts_get_senders_of_their_own() {
    let mut r = GroupReconciler::new();
    let intent = || vec![link("bt-rtp", "ap2-dev-dusche"), link("bt-rtp", "pwsink-dev-office_dave")];
    let c = || {
        let mut c = scene(intent(), &["ap2-dev-dusche", "pwsink-dev-office_dave"], &[]);
        c.ap2_devices.insert("ap2-dev-dusche".to_string(), receiver("Dusche"));
        c.pwsink_hosts.insert("pwsink-dev-office_dave".to_string(), "office".to_string());
        c
    };
    assert_eq!(run(&mut r, c(), false), vec!["create sync-grp-", "link bt-rtp", "ap2 1 at 44100", "pwsink 1"]);
    let g = r.running.value_at(0);
    assert_eq!(g.pwsink_ports, vec![PWSINK_BASE_PORT]);
    // A route that goes takes everything with it, the anchor last.
    let mut gone = c();
    gone.intent = Vec::new();
    assert_eq!(run(&mut r, gone, false), vec!["drop ap2 101", "drop pwsink 102", "destroy 7"]);
    assert!(r.running.is_empty());
}

#[test]
fn ports_are_given_out_once() {
    let mut r = GroupReconciler::new();
    r.running.insert("a".into(), running_group(&[], &[], &[]));
    assert_eq!(r.alloc_port(), Some(GROUP_BASE_PORT + 1));
    r.idle_senders.insert(
        "sendspin-dev-x".into(),
        IdleSender { sink_node_name: "idle-dev-x".into(), sink_node_id: 3, port: GROUP_BASE_PORT + 1, server: 9 },
    );
    assert_eq!(r.alloc_port(), Some(GROUP_BASE_PORT + 2));
}
