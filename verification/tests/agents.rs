use bridge_daemon::agents::{
    duck_output, unduck_output, valid_pair_code, welcome, AgentMsg, Agents, DaemonMsg, Effect, HelloClaim, HelloOutcome, HostState,
    PairedAgent, RemoteDuck, PAIR_CODE_CHARS, PROTOCOL_VERSION,
};
use bridge_daemon::names::PWSINK_DEV_PREFIX;

fn registry() -> Agents {
    Agents::new(Vec::new())
}

/// What a random source would hand out.
const MINTED: [u8; 3] = [0xa1, 0xb2, 0xc3];
const SUFFIX: [u8; 2] = [0x0d, 0x0e];
const TOKEN: [u8; 24] = [7; 24];
const OTHER_TOKEN: [u8; 24] = [9; 24];

/// A well-formed hello from `machine`/`user`, tokenless unless given one.
fn claim<'a>(machine: &'a str, user: &'a str, token: Option<&'a str>) -> HelloClaim<'a> {
    HelloClaim { protocol: PROTOCOL_VERSION, machine_id: machine, hostname: "host", user, token, pair_code: None }
}

fn hello(agents: &mut Agents, c: HelloClaim<'_>) -> HelloOutcome {
    agents.hello(c, 1, &MINTED, &SUFFIX).0
}

fn approve(agents: &mut Agents, identity: &str) -> Result<PairedAgent, String> {
    agents.approve(identity, &TOKEN).0
}

fn bits(v: f32) -> u32 {
    v.to_bits()
}

fn reported(volume: Option<f32>, muted: Option<bool>) -> HostState {
    let mut state = HostState::new();
    state.volume = volume.map(bits);
    state.muted = muted;
    state
}

#[test]
fn node_name_includes_the_user_so_two_sessions_dont_collide() {
    let a = Agents::node_name_for("david-local", "david");
    let b = Agents::node_name_for("david-local", "guest");
    assert_ne!(a, b);
    assert!(a.starts_with(PWSINK_DEV_PREFIX));
}

#[test]
fn a_tokenless_hello_becomes_a_pending_request() {
    let mut agents = registry();
    let outcome = hello(&mut agents, claim("m1", "dave", None));
    assert!(matches!(outcome, HelloOutcome::Pending));
    let snapshot = agents.snapshot();
    assert_eq!(snapshot.len(), 1);
    assert!(!snapshot[0].paired);
    assert!(snapshot[0].code.is_some());
    // Listed as a host from the first hello — that is the discovered output the
    // user pairs — but not paired, so nothing can route to it yet.
    let hosts = agents.hosts();
    assert_eq!(hosts.len(), 1);
    assert!(!hosts[0].paired);
    assert!(hosts[0].pair_code.is_some());
    assert!(hosts[0].node_name.starts_with(PWSINK_DEV_PREFIX));
}

#[test]
fn the_pending_node_name_is_the_one_approval_uses() {
    // The Outputs page keys its rows by node name, so the card the user pairs
    // and the target it becomes must be the same row.
    let mut agents = registry();
    hello(&mut agents, claim("m1", "dave", None));
    let pending_name = agents.hosts()[0].node_name.clone();
    let paired = approve(&mut agents, "m1:dave").unwrap();
    assert_eq!(paired.node_name, pending_name);
}

#[test]
fn two_hosts_sharing_a_hostname_and_user_get_distinct_node_names() {
    // Same derived name, different machines: folding them together would share
    // one card, one routing row and one entity between two hosts.
    let mut agents = registry();
    hello(&mut agents, claim("m1", "dave", None));
    approve(&mut agents, "m1:dave").unwrap();
    hello(&mut agents, claim("m2", "dave", None));
    let names: Vec<String> = agents.hosts().into_iter().map(|h| h.node_name).collect();
    assert_eq!(names.len(), 2);
    assert_ne!(names[0], names[1]);
}

#[test]
fn the_agents_own_code_is_kept_and_survives_a_reconnect() {
    // The code the host logged at startup is the one the approver must see, so a
    // reconnect must not rotate it.
    let mut agents = registry();
    hello(&mut agents, HelloClaim { pair_code: Some("A1B2C3"), ..claim("m1", "dave", None) });
    assert_eq!(agents.hosts()[0].pair_code.as_deref(), Some("A1B2C3"));
    hello(&mut agents, HelloClaim { pair_code: Some("A1B2C3"), ..claim("m1", "dave", None) });
    assert_eq!(agents.hosts().len(), 1);
    assert_eq!(agents.hosts()[0].pair_code.as_deref(), Some("A1B2C3"));
}

#[test]
fn a_malformed_offered_code_is_replaced_not_shown() {
    // Anything that isn't the shape we'd have generated is ours instead: the code
    // is rendered in the UI next to a host's name, so a rogue agent must not get
    // to write that text.
    assert_eq!(valid_pair_code(Some("A1B2C3")).as_deref(), Some("A1B2C3"));
    assert_eq!(valid_pair_code(Some("a1b2c3")), None);
    assert_eq!(valid_pair_code(Some("A1B2C3 — Kitchen")), None);
    assert_eq!(valid_pair_code(Some("ZZZZZZ")), None);
    assert_eq!(valid_pair_code(Some("A1B2")), None);
    assert_eq!(valid_pair_code(None), None);

    let mut agents = registry();
    hello(&mut agents, HelloClaim { pair_code: Some("nope, not a code"), ..claim("m1", "dave", None) });
    let code = agents.hosts()[0].pair_code.clone().unwrap();
    assert_eq!(code.len(), PAIR_CODE_CHARS);
    assert!(code.chars().all(|c| c.is_ascii_hexdigit()));
}

#[test]
fn approval_mints_a_token_that_then_authenticates() {
    let mut agents = registry();
    hello(&mut agents, claim("m1", "dave", None));
    let paired = approve(&mut agents, "m1:dave").expect("approve");
    assert!(!paired.token.is_empty());
    assert_eq!(agents.hosts().len(), 1);
    assert!(agents.hosts()[0].paired);

    // Reconnect with the token: welcomed, and now connected.
    let outcome = hello(&mut agents, claim("m1", "dave", Some(&paired.token)));
    match outcome {
        HelloOutcome::Welcome { node_name, .. } => {
            assert_eq!(node_name, paired.node_name);
            assert!(agents.is_connected(&node_name));
        }
        _ => panic!("expected a welcome"),
    }
}

#[test]
fn a_wrong_token_is_denied() {
    let mut agents = registry();
    hello(&mut agents, claim("m1", "dave", None));
    approve(&mut agents, "m1:dave").unwrap();
    let outcome = hello(&mut agents, claim("m1", "dave", Some("not-the-token")));
    assert!(matches!(outcome, HelloOutcome::Denied(_)));
}

#[test]
fn a_token_from_another_identity_is_denied() {
    // Same token, different user: pairing is per session, so this must fail
    // even though the secret is genuine.
    let mut agents = registry();
    hello(&mut agents, claim("m1", "dave", None));
    let paired = approve(&mut agents, "m1:dave").unwrap();
    let outcome = hello(&mut agents, claim("m1", "eve", Some(&paired.token)));
    assert!(matches!(outcome, HelloOutcome::Denied(_)));
}

#[test]
fn protocol_mismatch_is_denied() {
    let mut agents = registry();
    let outcome = hello(&mut agents, HelloClaim { protocol: PROTOCOL_VERSION + 1, ..claim("m1", "dave", None) });
    assert!(matches!(outcome, HelloOutcome::Denied(_)));
}

#[test]
fn re_pairing_keeps_the_node_name_so_routing_survives() {
    let mut agents = registry();
    hello(&mut agents, claim("m1", "dave", None));
    let first = approve(&mut agents, "m1:dave").unwrap();
    // Agent lost its config and pairs again.
    hello(&mut agents, claim("m1", "dave", None));
    let second = agents.approve("m1:dave", &OTHER_TOKEN).0.unwrap();
    assert_eq!(first.node_name, second.node_name);
    assert_ne!(first.token, second.token);
}

#[test]
fn unpairing_revokes_the_token_and_leaves_the_host_pairable_again() {
    let mut agents = registry();
    hello(&mut agents, claim("m1", "dave", None));
    let paired = approve(&mut agents, "m1:dave").unwrap();
    agents.unpair("m1:dave").0.unwrap();
    assert!(agents.hosts().is_empty());

    // The revoked token is refused...
    let outcome = hello(&mut agents, claim("m1", "dave", Some(&paired.token)));
    assert!(matches!(outcome, HelloOutcome::Denied(_)));
    // ...and the agent, which drops it rather than dying, comes back as a
    // discovered host that keeps the node name its routing used.
    hello(&mut agents, claim("m1", "dave", None));
    let hosts = agents.hosts();
    assert_eq!(hosts.len(), 1);
    assert!(!hosts[0].paired);
    assert_eq!(hosts[0].node_name, paired.node_name);
}

#[test]
fn an_output_card_resolves_to_an_identity_whether_paired_or_pending() {
    let mut agents = registry();
    hello(&mut agents, claim("m1", "dave", None));
    let node_name = agents.hosts()[0].node_name.clone();
    assert_eq!(agents.identity_for_node(&node_name).as_deref(), Some("m1:dave"));
    approve(&mut agents, "m1:dave").unwrap();
    assert_eq!(agents.identity_for_node(&node_name).as_deref(), Some("m1:dave"));
    assert_eq!(agents.identity_for_node("pwsink-dev-nobody"), None);
}

#[test]
fn commands_to_a_disconnected_host_report_failure_rather_than_queueing() {
    let mut agents = registry();
    hello(&mut agents, claim("m1", "dave", None));
    let paired = approve(&mut agents, "m1:dave").unwrap();
    assert!(agents.set_volume(&paired.node_name, bits(0.5)).is_none());
    assert!(agents.set_mute(&paired.node_name, true).is_none());
    assert!(agents.duck(&paired.node_name, bits(0.2), 200).is_none());
}

#[test]
fn state_updates_only_apply_to_connected_hosts() {
    let mut agents = registry();
    hello(&mut agents, claim("m1", "dave", None));
    let paired = approve(&mut agents, "m1:dave").unwrap();
    agents.update_state(&paired.node_name, reported(Some(0.4), None));
    assert_eq!(agents.state(&paired.node_name), None);

    hello(&mut agents, claim("m1", "dave", Some(&paired.token)));
    agents.update_state(&paired.node_name, reported(Some(0.4), None));
    assert_eq!(agents.state(&paired.node_name).and_then(|s| s.volume), Some(bits(0.4)));
}

/// Both getters answer `None` — "cannot" — until a host is actually connected *and*
/// has reported the lever, and both setters say whether the command reaches the host.
#[test]
fn the_alignment_seam_answers_cannot_until_a_host_reports_a_lever() {
    let mut agents = registry();
    hello(&mut agents, claim("m1", "dave", None));
    let paired = approve(&mut agents, "m1:dave").unwrap();
    let node = paired.node_name.clone();

    // Paired but not connected: no capability either way, and no write lands.
    assert_eq!(agents.muted(&node), None);
    assert_eq!(agents.level(&node), None);
    assert!(agents.set_mute(&node, true).is_none());
    assert!(agents.set_volume(&node, bits(0.2)).is_none());

    // Connected, but nothing reported yet — still "cannot".
    agents.hello(claim("m1", "dave", Some(&paired.token)), 5, &MINTED, &SUFFIX);
    assert_eq!(agents.level(&node), None);

    // A level but no mute lever is a real case.
    let mut state = reported(Some(0.7), None);
    state.receiving = true;
    agents.update_state(&node, state);
    assert_eq!(agents.level(&node), Some(bits(0.7)), "the host's own cubic scale, kept exact for the restore");
    assert_eq!(agents.muted(&node), None, "no mute lever ⇒ the relay has to hold this one down");

    // And a write now reaches the host, on its own scale.
    assert_eq!(agents.set_volume(&node, bits(0.2)), Some((5, DaemonMsg::SetVolume { volume: bits(0.2) })));
    assert_eq!(agents.set_mute(&node, true), Some((5, DaemonMsg::SetMute { muted: true })));
}

#[test]
fn levels_are_kept_between_silence_and_full() {
    let mut agents = registry();
    hello(&mut agents, claim("m1", "dave", None));
    let paired = approve(&mut agents, "m1:dave").unwrap();
    hello(&mut agents, claim("m1", "dave", Some(&paired.token)));
    let node = &paired.node_name;
    assert_eq!(agents.set_volume(node, bits(1.5)), Some((1, DaemonMsg::SetVolume { volume: bits(1.0) })));
    assert_eq!(agents.set_volume(node, bits(-0.5)), Some((1, DaemonMsg::SetVolume { volume: bits(0.0) })));
    assert_eq!(agents.duck(node, bits(7.0), 200), Some((1, DaemonMsg::Duck { depth: bits(1.0), ramp_ms: 200 })));
    assert_eq!(agents.unduck(node, 400), Some((1, DaemonMsg::Unduck { ramp_ms: 400 })));
    assert_eq!(agents.release(node), Some((1, DaemonMsg::Release)));
}

#[test]
fn a_pending_host_is_told_its_code_and_listeners_hear_of_it() {
    let mut agents = registry();
    let (_, todo) = agents.hello(claim("m1", "dave", None), 3, &MINTED, &SUFFIX);
    let code = agents.hosts()[0].pair_code.clone().unwrap();
    assert_eq!(code, "A1B2C3");
    assert!(todo.iter().any(|e| matches!(e, Effect::Send { conn: 3, msg: DaemonMsg::PairPending { code: c } } if *c == code)));
    assert!(todo.iter().any(|e| matches!(e, Effect::Notify)));
}

#[test]
fn approving_saves_and_hands_over_the_token() {
    let mut agents = registry();
    agents.hello(claim("m1", "dave", None), 3, &MINTED, &SUFFIX);
    let (paired, todo) = agents.approve("m1:dave", &TOKEN);
    let paired = paired.unwrap();
    assert_eq!(paired.token, "07".repeat(24));
    assert!(todo.iter().any(|e| matches!(e, Effect::Save)));
    assert!(todo.iter().any(|e| matches!(e, Effect::Send { conn: 3, msg: DaemonMsg::Paired { token } } if *token == paired.token)));
    assert!(agents.is_paired("m1:dave"));
}

#[test]
fn nobody_unknown_can_be_approved_or_unpaired() {
    let mut agents = registry();
    assert!(approve(&mut agents, "m9:nobody").is_err());
    assert!(agents.unpair("m9:nobody").0.is_err());
}

#[test]
fn connected_hosts_are_the_targets_and_report_their_levels() {
    let mut agents = registry();
    hello(&mut agents, claim("m1", "dave", None));
    let paired = approve(&mut agents, "m1:dave").unwrap();
    assert!(agents.connected_targets().is_empty());
    hello(&mut agents, claim("m1", "dave", Some(&paired.token)));
    assert_eq!(agents.connected_targets().len(), 1);
    assert!(agents.incoming(&paired.node_name, AgentMsg::State(reported(Some(0.25), Some(true)))));
    let (volumes, mutes) = agents.levels();
    assert_eq!(volumes.get(&paired.node_name), Some(&bits(0.25)));
    assert_eq!(mutes.get(&paired.node_name), Some(&true));
    assert!(agents.disconnected(&paired.node_name));
    assert!(agents.connected_targets().is_empty());
    assert!(agents.levels().0.is_empty());
}

#[test]
fn an_agent_is_welcomed_with_its_session_and_its_delay() {
    match welcome("pwsink-dev-office_dave", 120) {
        DaemonMsg::Welcome { session_name, ifname, jitter_ms, keepalive_secs } => {
            assert_eq!(session_name, "pwrouter-office_dave");
            assert_eq!(ifname, None);
            assert_eq!(jitter_ms, Some(120));
            assert_eq!(keepalive_secs, 15);
        }
        _ => panic!("expected a welcome"),
    }
}

#[test]
fn only_remote_hosts_are_ducked_through_their_agent() {
    assert!(matches!(duck_output("pwsink-dev-office", bits(0.3)), Some(RemoteDuck::Duck { .. })));
    assert!(matches!(unduck_output("pwsink-dev-office"), Some(RemoteDuck::Unduck { .. })));
    assert!(duck_output("sendspin-dev-kitchen", bits(0.3)).is_none());
    assert!(unduck_output("ap2-dev-dusche").is_none());
}

#[test]
fn a_new_delay_reaches_a_connected_host_alone() {
    let mut agents = registry();
    hello(&mut agents, claim("m1", "dave", None));
    let paired = approve(&mut agents, "m1:dave").unwrap();
    assert!(agents.retune(&paired.node_name, 80).is_none());
    agents.hello(claim("m1", "dave", Some(&paired.token)), 4, &MINTED, &SUFFIX);
    match agents.retune(&paired.node_name, 80) {
        Some((4, DaemonMsg::Welcome { jitter_ms, .. })) => assert_eq!(jitter_ms, Some(80)),
        _ => panic!("expected a welcome on the open connection"),
    }
}

#[test]
fn pairing_again_leaves_one_row_and_the_new_token_alone() {
    let mut agents = registry();
    hello(&mut agents, claim("m1", "dave", None));
    let a = approve(&mut agents, "m1:dave").unwrap();
    hello(&mut agents, claim("m1", "dave", None));
    let shown: Vec<String> = agents.hosts().iter().filter(|h| !h.paired).map(|h| h.node_name.clone()).collect();
    let b = agents.approve("m1:dave", &OTHER_TOKEN).0.unwrap();
    assert_eq!(b.node_name, a.node_name);
    assert_eq!(shown, vec![b.node_name.clone()]);
    assert_ne!(b.token, a.token);
    assert!(!b.token.is_empty());
    assert_eq!(agents.paired.len(), 1);
    assert!(agents.pending.is_empty());
    assert!(matches!(hello(&mut agents, claim("m1", "dave", Some(&a.token))), HelloOutcome::Denied(_)));
    assert!(matches!(hello(&mut agents, claim("m1", "dave", Some(&b.token))), HelloOutcome::Welcome { .. }));
    assert!(approve(&mut agents, "m1:dave").is_err());
}
