use bridge_daemon::graph::{GlobalProps, LinkSpec, RegistryState};
use bridge_daemon::maps::{NameMap, NameSet};
use bridge_daemon::names::{OutputKind, AIRPLAY_NODE_NAME};
use bridge_daemon::routing::{
    build_matrix, build_meter_samples, forget_reply, link_by_name, link_reply, link_step, matrix_node_names, not_persisted, present_source_meters,
    refuse_link, source_set_of, source_settings, unlink_step, House, LatencyConfig, LevelCaps, LinkPairRequest, LinkStep, RoutingLink,
    RoutingMatrix, SourceEntry, UnlinkStep, Volume,
};
use bridge_daemon::targets::PwSinkLiveness;

fn link(source: &str, output: &str) -> RoutingLink {
    RoutingLink { source: source.to_string(), output: output.to_string() }
}

fn pairs(links: &[RoutingLink]) -> Vec<(String, String)> {
    links.iter().map(|l| (l.source.clone(), l.output.clone())).collect()
}

fn names(list: &[&str]) -> NameSet {
    let mut out = NameSet::new();
    for n in list {
        out.insert(n.to_string());
    }
    out
}

fn numbers(list: &[(&str, u32)]) -> NameMap<u32> {
    let mut out = NameMap::new();
    for (n, v) in list {
        out.insert(n.to_string(), *v);
    }
    out
}

fn keys<V>(m: &NameMap<V>) -> Vec<String> {
    m.keys()
}

fn latencies() -> LatencyConfig {
    LatencyConfig {
        source_latencies: NameMap::new(),
        group_lead_ms: 0,
        sendspin_delays: NameMap::new(),
        ap2_delays: NameMap::new(),
        ap2_default_ms: 0,
        pwsink_jitters: NameMap::new(),
        pwsink_default_ms: 0,
    }
}

/// A house with nothing in it but the outputs that were added.
fn house(adopted: &[&str], intent: Vec<RoutingLink>) -> House {
    House {
        reg: RegistryState::new(),
        devices: NameMap::new(),
        ap2_devices: NameMap::new(),
        pwsink_hosts: NameMap::new(),
        adopted: names(adopted),
        source_labels: NameMap::new(),
        output_labels: NameMap::new(),
        peaks: NameMap::new(),
        intent,
        sendspin_volumes: NameMap::new(),
        sendspin_mutes: NameMap::new(),
        ap2_volumes: NameMap::new(),
        ap2_mutes: NameMap::new(),
        pwsink_volumes: NameMap::new(),
        pwsink_mutes: NameMap::new(),
        ap2_connected: NameSet::new(),
        pwsink: PwSinkLiveness::new(),
        ap2_errors: NameMap::new(),
        lat: latencies(),
        xruns: NameMap::new(),
        held: NameSet::new(),
    }
}

fn matrix_with(adopted: &[&str], intent: Vec<RoutingLink>) -> RoutingMatrix {
    build_matrix(&house(adopted, intent))
}

fn matrix_with_connected(adopted: &[&str], intent: Vec<RoutingLink>, ap2_connected: &[&str]) -> RoutingMatrix {
    let mut h = house(adopted, intent);
    h.ap2_connected = names(ap2_connected);
    build_matrix(&h)
}

fn matrix_with_names(adopted: &[&str], intent: Vec<RoutingLink>, labels: &[(&str, &str)]) -> RoutingMatrix {
    let mut h = house(adopted, intent);
    for (n, l) in labels {
        h.output_labels.insert(n.to_string(), l.to_string());
    }
    build_matrix(&h)
}

fn matrix_of_held(adopted: &[&str], intent: Vec<RoutingLink>, held: &[&str]) -> RoutingMatrix {
    let mut h = house(adopted, intent);
    h.held = names(held);
    build_matrix(&h)
}

fn matrix_with_pwsink_levels(adopted: &[&str], volumes: &[(&str, f32)], mutes: &[(&str, bool)]) -> RoutingMatrix {
    let mut h = house(adopted, Vec::new());
    for (n, v) in volumes {
        h.pwsink_volumes.insert(n.to_string(), v.to_bits());
    }
    for (n, m) in mutes {
        h.pwsink_mutes.insert(n.to_string(), *m);
    }
    build_matrix(&h)
}

fn caps_of(m: &RoutingMatrix, node: &str) -> Option<LevelCaps> {
    m.outputs.iter().chain(m.sources.iter()).find(|n| n.node_name == node).expect("node in matrix").level_caps
}

#[test]
fn routing_zero_xruns_are_not_reported() {
    let nodes = vec!["airplay-in".to_string()];
    let xruns = numbers(&[("airplay-in", 0)]);
    assert!(build_meter_samples(&nodes, &NameMap::new(), &xruns).is_empty());
}

#[test]
fn routing_the_meters_frame_is_bounded_by_the_last_matrix() {
    let matrix = matrix_with(&["ap2-dev-dusche"], Vec::new());
    let names = matrix_node_names(&matrix);
    assert!(names.contains(&"ap2-dev-dusche".to_string()));

    // A busy node the matrix does not show (an internal graph node the profiler
    // reports) stays out.
    let xruns = numbers(&[("ap2-dev-dusche", 3), ("some-internal-node", 99)]);
    let samples = build_meter_samples(&names, &NameMap::new(), &xruns);
    assert_eq!(keys(&samples), vec!["ap2-dev-dusche"]);
}

#[test]
fn routing_source_set_of_collects_unique_sorted_sources() {
    let intent = vec![
        link(AIRPLAY_NODE_NAME, "sendspin-dev-kitchen"),
        link("other-source", "sendspin-dev-kitchen"),
        link(AIRPLAY_NODE_NAME, "ap2-dev-dusche"),
    ];
    let kitchen = source_set_of(&intent, "sendspin-dev-kitchen");
    assert!(kitchen.contains(AIRPLAY_NODE_NAME) && kitchen.contains("other-source") && kitchen.len() == 2);
    let dusche = source_set_of(&intent, "ap2-dev-dusche");
    assert_eq!(dusche.len(), 1);
}

#[test]
fn routing_a_renamed_output_carries_its_name_into_the_matrix() {
    let m = matrix_with_names(&["ap2-dev-dusche"], Vec::new(), &[("ap2-dev-dusche", "Shower")]);
    assert_eq!(m.outputs.len(), 1);
    assert_eq!(m.outputs[0].display_name, "Shower");
    // Without one, the derived name still applies.
    let plain = matrix_with(&["ap2-dev-dusche"], Vec::new());
    assert_eq!(plain.outputs[0].display_name, "dusche");
}

#[test]
fn routing_unadopted_outputs_and_their_saved_links_stay_out_of_the_matrix() {
    let intent = vec![link(AIRPLAY_NODE_NAME, "ap2-dev-dusche")];
    let m = matrix_with(&[], intent);
    assert!(m.outputs.is_empty(), "an unadopted output must not be routable");
    assert!(m.links.is_empty(), "its saved link must not show (nor be applied)");
    assert!(m.sources.is_empty(), "and it must not drag its source in on its own");
}

#[test]
fn routing_adopting_an_output_restores_the_routing_it_had() {
    let intent = vec![link(AIRPLAY_NODE_NAME, "ap2-dev-dusche"), link(AIRPLAY_NODE_NAME, "ap2-dev-pioneer")];
    let m = matrix_with(&["ap2-dev-dusche"], intent);
    assert_eq!(m.outputs.len(), 1);
    // Offline (nothing in the registry) but listed, so its routing is visible.
    assert_eq!(m.outputs[0].node_name, "ap2-dev-dusche");
    assert!(!m.outputs[0].present);
    assert_eq!(pairs(&m.links), pairs(&[link(AIRPLAY_NODE_NAME, "ap2-dev-dusche")]));
    assert_eq!(m.sources.len(), 1);
}

#[test]
fn routing_dialed_outputs_report_session_state_separately_from_presence() {
    let intent = vec![link(AIRPLAY_NODE_NAME, "ap2-dev-dusche"), link(AIRPLAY_NODE_NAME, "pwsink-dev-david_local")];
    let m = matrix_with_connected(&["ap2-dev-dusche", "pwsink-dev-david_local"], intent, &["ap2-dev-dusche"]);
    let by_name = |n: &str| m.outputs.iter().find(|o| o.node_name == n).expect("output listed");
    assert_eq!(by_name("ap2-dev-dusche").streaming, Some(true), "a connected AP2 sender is streaming");
    // No sender ever published a status for this target — the receiver-initiated
    // handshake hasn't happened, so nothing is carried.
    assert_eq!(by_name("pwsink-dev-david_local").streaming, Some(false));
}

#[test]
fn routing_sources_carry_no_session_state() {
    let intent = vec![link(AIRPLAY_NODE_NAME, "sendspin-dev-kitchen")];
    let m = matrix_with(&["sendspin-dev-kitchen"], intent);
    assert_eq!(m.sources.len(), 1);
    assert_eq!(m.sources[0].streaming, None);
    // Nor does a sendspin device: it always has a sender while it's adopted.
    assert_eq!(m.outputs[0].streaming, None);
}

#[test]
fn mod_zero_xruns_are_not_reported() {
    let nodes = vec!["airplay-in".to_string()];
    let xruns = numbers(&[("airplay-in", 0)]);
    assert!(build_meter_samples(&nodes, &NameMap::new(), &xruns).is_empty());
}

#[test]
fn mod_the_meters_frame_is_bounded_by_the_last_matrix() {
    let matrix = matrix_with(&["ap2-dev-dusche"], Vec::new());
    let names = matrix_node_names(&matrix);
    assert!(names.contains(&"ap2-dev-dusche".to_string()));

    // A busy node the matrix does not show (an internal graph node the profiler
    // reports) stays out.
    let xruns = numbers(&[("ap2-dev-dusche", 3), ("some-internal-node", 99)]);
    let samples = build_meter_samples(&names, &NameMap::new(), &xruns);
    assert_eq!(keys(&samples), vec!["ap2-dev-dusche"]);
}

#[test]
fn mod_source_set_of_collects_unique_sorted_sources() {
    let intent = vec![
        link(AIRPLAY_NODE_NAME, "sendspin-dev-kitchen"),
        link("other-source", "sendspin-dev-kitchen"),
        link(AIRPLAY_NODE_NAME, "ap2-dev-dusche"),
    ];
    let kitchen = source_set_of(&intent, "sendspin-dev-kitchen");
    assert!(kitchen.contains(AIRPLAY_NODE_NAME) && kitchen.contains("other-source") && kitchen.len() == 2);
    let dusche = source_set_of(&intent, "ap2-dev-dusche");
    assert_eq!(dusche.len(), 1);
}

#[test]
fn mod_a_renamed_output_carries_its_name_into_the_matrix() {
    let m = matrix_with_names(&["ap2-dev-dusche"], Vec::new(), &[("ap2-dev-dusche", "Shower")]);
    assert_eq!(m.outputs.len(), 1);
    assert_eq!(m.outputs[0].display_name, "Shower");
    // Without one, the derived name still applies.
    let plain = matrix_with(&["ap2-dev-dusche"], Vec::new());
    assert_eq!(plain.outputs[0].display_name, "dusche");
}

#[test]
fn mod_unadopted_outputs_and_their_saved_links_stay_out_of_the_matrix() {
    let intent = vec![link(AIRPLAY_NODE_NAME, "ap2-dev-dusche")];
    let m = matrix_with(&[], intent);
    assert!(m.outputs.is_empty(), "an unadopted output must not be routable");
    assert!(m.links.is_empty(), "its saved link must not show (nor be applied)");
    assert!(m.sources.is_empty(), "and it must not drag its source in on its own");
}

#[test]
fn mod_adopting_an_output_restores_the_routing_it_had() {
    let intent = vec![link(AIRPLAY_NODE_NAME, "ap2-dev-dusche"), link(AIRPLAY_NODE_NAME, "ap2-dev-pioneer")];
    let m = matrix_with(&["ap2-dev-dusche"], intent);
    assert_eq!(m.outputs.len(), 1);
    // Offline (nothing in the registry) but listed, so its routing is visible.
    assert_eq!(m.outputs[0].node_name, "ap2-dev-dusche");
    assert!(!m.outputs[0].present);
    assert_eq!(pairs(&m.links), pairs(&[link(AIRPLAY_NODE_NAME, "ap2-dev-dusche")]));
    assert_eq!(m.sources.len(), 1);
}

#[test]
fn mod_dialed_outputs_report_session_state_separately_from_presence() {
    let intent = vec![link(AIRPLAY_NODE_NAME, "ap2-dev-dusche"), link(AIRPLAY_NODE_NAME, "pwsink-dev-david_local")];
    let m = matrix_with_connected(&["ap2-dev-dusche", "pwsink-dev-david_local"], intent, &["ap2-dev-dusche"]);
    let by_name = |n: &str| m.outputs.iter().find(|o| o.node_name == n).expect("output listed");
    assert_eq!(by_name("ap2-dev-dusche").streaming, Some(true), "a connected AP2 sender is streaming");
    // No sender ever published a status for this target — the receiver-initiated
    // handshake hasn't happened, so nothing is carried.
    assert_eq!(by_name("pwsink-dev-david_local").streaming, Some(false));
}

#[test]
fn mod_sources_carry_no_session_state() {
    let intent = vec![link(AIRPLAY_NODE_NAME, "sendspin-dev-kitchen")];
    let m = matrix_with(&["sendspin-dev-kitchen"], intent);
    assert_eq!(m.sources.len(), 1);
    assert_eq!(m.sources[0].streaming, None);
    // Nor does a sendspin device: it always has a sender while it's adopted.
    assert_eq!(m.outputs[0].streaming, None);
}

#[test]
fn an_unknown_level_is_not_an_absent_capability() {
    let m = matrix_with_pwsink_levels(&["ap2-dev-dusche", "sendspin-dev-kitchen"], &[], &[]);
    for node in ["ap2-dev-dusche", "sendspin-dev-kitchen"] {
        let caps = caps_of(&m, node).unwrap_or_else(|| panic!("{node} must report its capability"));
        assert!(caps.volume && caps.mute, "{node}'s knobs are in-band, so they exist before any level is known");
    }
    // ...and the *values* are still honestly absent.
    let ap2 = m.outputs.iter().find(|n| n.node_name == "ap2-dev-dusche").unwrap();
    assert_eq!(ap2.volume, None, "an unread level must not be fabricated");
}

#[test]
fn a_pwsink_hosts_capability_is_whatever_its_agent_reports() {
    let m = matrix_with_pwsink_levels(
        &["pwsink-dev-both", "pwsink-dev-level_only", "pwsink-dev-silent"],
        &[("pwsink-dev-both", 0.4), ("pwsink-dev-level_only", 0.5)],
        &[("pwsink-dev-both", false)],
    );
    assert_eq!(caps_of(&m, "pwsink-dev-both"), Some(LevelCaps { volume: true, mute: true }));
    assert_eq!(caps_of(&m, "pwsink-dev-level_only"), Some(LevelCaps { volume: true, mute: false }));
    // No agent answering at all: not tunable and not mutable *by its own knob* — the
    // alignment relay can still silence it, which is a different question.
    assert_eq!(caps_of(&m, "pwsink-dev-silent"), Some(LevelCaps { volume: false, mute: false }));
}

#[test]
fn every_output_kind_reports_a_capability_and_sources_report_none() {
    let adopted: Vec<String> = OutputKind::all().iter().map(|k| format!("{}test", k.prefix())).collect();
    let names: Vec<&str> = adopted.iter().map(String::as_str).collect();
    let m = matrix_with_pwsink_levels(&names, &[], &[]);
    assert_eq!(m.outputs.len(), OutputKind::all().len());
    for out in &m.outputs {
        assert!(out.level_caps.is_some(), "{} must state its capability", out.node_name);
    }
    // A source's level is PipeWire's own; the field is absent rather than all-false.
    let with_source = matrix_with(&["ap2-dev-dusche"], vec![link(AIRPLAY_NODE_NAME, "ap2-dev-dusche")]);
    assert_eq!(with_source.sources.len(), 1);
    assert_eq!(with_source.sources[0].level_caps, None);
}

#[test]
fn a_held_output_reports_it_and_the_others_do_not() {
    let adopted = ["ap2-dev-dusche", "sendspin-dev-kitchen"];
    let intent = || vec![link(AIRPLAY_NODE_NAME, "ap2-dev-dusche")];
    let m = matrix_of_held(&adopted, intent(), &["ap2-dev-dusche"]);
    let by_name = |m: &RoutingMatrix, n: &str| m.outputs.iter().find(|o| o.node_name == n).expect("output listed").held;
    assert!(by_name(&m, "ap2-dev-dusche"), "a held speaker must say why it is silent");
    assert!(!by_name(&m, "sendspin-dev-kitchen"), "an output nobody is aligning is untouched");
    // The hold takes speakers, never inputs.
    assert!(m.sources.iter().all(|s| !s.held));

    let after = matrix_of_held(&adopted, intent(), &[]);
    assert!(after.outputs.iter().all(|o| !o.held), "the hold released, so nothing is held");
}

#[test]
fn a_silent_system_produces_an_empty_meters_payload() {
    let nodes = vec!["airplay-in".to_string(), "bt-bridge-rtp".to_string()];
    let peaks = numbers(&[("airplay-in", 0f32.to_bits()), ("bt-bridge-rtp", 0f32.to_bits())]);
    assert!(build_meter_samples(&nodes, &peaks, &NameMap::new()).is_empty());
}

#[test]
fn the_meters_frame_carries_only_what_moves() {
    let nodes = vec!["airplay-in".to_string(), "ap2-dev-dusche".to_string()];
    let xruns = numbers(&[("airplay-in", 7)]);
    let peaks = numbers(&[("airplay-in", 0.5f32.to_bits()), ("ap2-dev-dusche", 0f32.to_bits())]);
    let samples = build_meter_samples(&nodes, &peaks, &xruns);
    let airplay = samples.get("airplay-in").unwrap();
    assert_eq!(airplay.peak, Some(0.5f32.to_bits()));
    assert_eq!(airplay.xruns, Some(7));
    // The silent output is absent entirely rather than sent as a zero.
    assert!(samples.get("ap2-dev-dusche").is_none(), "a node with nothing to report must be left out");
}

// ---- the graph --------------------------------------------------------------------------------

fn node(name: &str, class: &str) -> GlobalProps {
    GlobalProps {
        node_name: Some(name.to_string()),
        media_class: Some(class.to_string()),
        port_name: None,
        node_id: None,
        port_direction: None,
        link_output_node: None,
        link_input_node: None,
        link_output_port: None,
        link_input_port: None,
    }
}

fn port(node_id: u32, name: &str, direction: &str) -> GlobalProps {
    GlobalProps {
        node_name: None,
        media_class: None,
        port_name: Some(name.to_string()),
        node_id: Some(node_id.to_string()),
        port_direction: Some(direction.to_string()),
        link_output_node: None,
        link_input_node: None,
        link_output_port: None,
        link_input_port: None,
    }
}

fn wire(from: (u32, u32), to: (u32, u32)) -> GlobalProps {
    GlobalProps {
        node_name: None,
        media_class: None,
        port_name: None,
        node_id: None,
        port_direction: None,
        link_output_node: Some(from.0.to_string()),
        link_input_node: Some(to.0.to_string()),
        link_output_port: Some(from.1.to_string()),
        link_input_port: Some(to.1.to_string()),
    }
}

/// A source with two channels and a sink with two inputs and two monitor ports.
fn graph() -> RegistryState {
    let mut reg = RegistryState::new();
    reg.add_global(10, node("airplay-in", "Audio/Source"));
    reg.add_global(20, node("sync-grp-1", "Audio/Sink"));
    reg.add_global(11, port(10, "capture_FL", "out"));
    reg.add_global(12, port(10, "capture_FR", "out"));
    reg.add_global(21, port(20, "playback_FR", "in"));
    reg.add_global(22, port(20, "playback_FL", "in"));
    reg.add_global(23, port(20, "monitor_FL", "out"));
    reg.add_global(24, port(20, "monitor_FR", "out"));
    reg
}

fn ends(specs: &[LinkSpec]) -> Vec<(u32, u32, u32, u32)> {
    specs.iter().map(|s| (s.out_node, s.out_port, s.in_node, s.in_port)).collect()
}

#[test]
fn channels_are_matched_by_their_suffix() {
    let reg = graph();
    assert_eq!(ends(&link_by_name(&reg, "airplay-in", "sync-grp-1", false)), vec![(10, 11, 20, 22), (10, 12, 20, 21)]);
    assert!(link_by_name(&reg, "airplay-in", "nobody", false).is_empty());
    // A monitor is only linked where it is asked for.
    assert!(link_by_name(&reg, "sync-grp-1", "airplay-in", false).is_empty());
}

#[test]
fn monitors_are_linked_on_request() {
    let mut reg = graph();
    reg.add_global(30, node("raop-out-bath", "Audio/Sink"));
    reg.add_global(31, port(30, "playback_FL", "in"));
    reg.add_global(32, port(30, "playback_FR", "in"));
    assert_eq!(ends(&link_by_name(&reg, "sync-grp-1", "raop-out-bath", true)), vec![(20, 23, 30, 31), (20, 24, 30, 32)]);
}

#[test]
fn links_and_unlinks_follow_the_graph() {
    let mut reg = graph();
    let req = LinkPairRequest { source: "airplay-in".to_string(), output: "sync-grp-1".to_string() };
    match link_step(&reg, &req) {
        LinkStep::Create(specs) => assert_eq!(specs.len(), 2),
        LinkStep::Done(r) => panic!("{}", r.message),
    }
    match unlink_step(&reg, &req) {
        UnlinkStep::Done(r) => assert!(r.ok),
        UnlinkStep::Destroy(ids) => panic!("{ids:?}"),
    }
    reg.add_global(40, wire((10, 11), (20, 22)));
    match unlink_step(&reg, &req) {
        UnlinkStep::Destroy(ids) => assert_eq!(ids, vec![40]),
        UnlinkStep::Done(r) => panic!("{}", r.message),
    }
    let absent = LinkPairRequest { source: "airplay-in".to_string(), output: "ap2-dev-off".to_string() };
    match link_step(&reg, &absent) {
        LinkStep::Done(r) => assert!(r.ok, "the route is kept until its output appears"),
        LinkStep::Create(_) => panic!("nothing to link to"),
    }
}

#[test]
fn only_what_was_added_can_be_linked() {
    let req = LinkPairRequest { source: "airplay-in".to_string(), output: "ap2-dev-dusche".to_string() };
    let refusal = refuse_link(&req, &names(&[])).unwrap();
    assert!(!refusal.ok);
    assert_eq!(refusal.message, "'ap2-dev-dusche' isn't one of your outputs — add it on the Outputs page first");
    assert!(refuse_link(&req, &names(&["ap2-dev-dusche"])).is_none());
}

#[test]
fn replies_say_what_went_wrong() {
    let r = not_persisted("disk full");
    assert!(!r.ok);
    assert_eq!(r.message, "failed to persist routing intent: disk full");
    assert!(!link_reply(false, None).ok);
    assert!(!link_reply(true, None).ok);
    assert!(!link_reply(true, Some(Err("no port".to_string()))).ok);
    let done = link_reply(true, Some(Ok("linked port 1 -> 2".to_string())));
    assert!(done.ok);
    assert!(forget_reply("ap2-dev-dusche", Ok(())).ok);
    assert!(!forget_reply("ap2-dev-dusche", Err("disk full".to_string())).ok);
}

#[test]
fn present_sources_are_metered() {
    let mut h = house(&["sync-out"], Vec::new());
    h.reg = graph();
    let m = build_matrix(&h);
    assert_eq!(present_source_meters(&m), vec![("airplay-in".to_string(), 10)]);
}

#[test]
fn a_row_states_what_applies_to_its_kind() {
    let mut h = house(&["sendspin-dev-kitchen", "ap2-dev-dusche"], Vec::new());
    h.sendspin_volumes.insert("sendspin-dev-kitchen".to_string(), 40);
    h.ap2_volumes.insert("ap2-dev-dusche".to_string(), 0.5f32.to_bits());
    h.lat.group_lead_ms = 300;
    h.lat.sendspin_delays.insert("sendspin-dev-kitchen".to_string(), 25);
    h.lat.ap2_default_ms = 1900;
    h.ap2_errors.insert("ap2-dev-dusche".to_string(), "refused".to_string());
    let m = build_matrix(&h);
    let by_name = |n: &str| m.outputs.iter().find(|o| o.node_name == n).expect("output listed");
    let kitchen = by_name("sendspin-dev-kitchen");
    assert_eq!(kitchen.volume, Some(Volume::Percent(40)));
    assert_eq!(kitchen.muted, Some(false));
    assert_eq!(kitchen.latency_ms, Some(325));
    assert_eq!(kitchen.last_error, None);
    let dusche = by_name("ap2-dev-dusche");
    assert_eq!(dusche.volume, Some(Volume::Level(0.5f32.to_bits())));
    assert_eq!(dusche.latency_ms, Some(1900));
    assert_eq!(dusche.last_error.as_deref(), Some("refused"));
}

#[test]
fn the_later_entry_of_a_source_counts() {
    let entry = |n: &str, l: &str, ms: u32| SourceEntry { node_name: n.to_string(), label: l.to_string(), latency_ms: ms };
    let (latencies, labels) = source_settings(&vec![entry("rtp-in-1", "Old", 100), entry("airplay-in", "AirPlay", 2000), entry("rtp-in-1", "New", 200)]);
    assert_eq!(keys(&latencies), vec!["airplay-in", "rtp-in-1"]);
    assert_eq!(latencies.get("rtp-in-1"), Some(&200));
    assert_eq!(labels.get("rtp-in-1").map(String::as_str), Some("New"));
}
