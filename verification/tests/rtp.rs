use bridge_daemon::graph::{GlobalProps, RegistryState};
use bridge_daemon::maps::NameSet;
use bridge_daemon::rtp::{group_users, le_hex, load_result, multicast_group, orphaned_sources, parse_ipv4, should_reload, Ipv4, Watchdog};

fn v4(a: u8, b: u8, c: u8, d: u8) -> Ipv4 {
    Ipv4 { a, b, c, d }
}

// A representative group table (indented group rows under an interface header).
const IGMP: &str = "\
Idx\tDevice    : Count Querier\tGroup    Users Timer\tReporter
1\tlo        :     1      V3
\t\t\t\t010000E0     1 0:00000000\t\t0
2\tend0      :     5      V3
\t\t\t\t2A2AFFEF     2 0:00000000\t\t0
\t\t\t\t010000E0     1 0:00000000\t\t0";

#[test]
fn le_hex_matches_proc_spelling() {
    assert_eq!(le_hex(v4(239, 255, 42, 42)), "2A2AFFEF");
    assert_eq!(le_hex(v4(224, 0, 0, 1)), "010000E0");
}

#[test]
fn group_users_sums_and_detects_absence() {
    // 239.255.42.42 joined by 2 sockets on end0.
    assert_eq!(group_users(IGMP, v4(239, 255, 42, 42)), Some(2));
    // 224.0.0.1 appears on both lo and end0 → summed.
    assert_eq!(group_users(IGMP, v4(224, 0, 0, 1)), Some(2));
    // A group nobody joined.
    assert_eq!(group_users(IGMP, v4(239, 1, 2, 3)), None);
}

#[test]
fn reload_only_when_stuck_with_live_audio() {
    // Healthy: module + our keepalive both joined (users=2) → never reload.
    assert!(!should_reload(true, 2, true, false));
    // Stuck: audio arriving, only our keepalive joined (users=1) → reload.
    assert!(should_reload(true, 1, true, false));
    // Group entirely gone (users=0) with audio arriving → reload.
    assert!(should_reload(true, 0, true, false));
    // Idle: nobody streaming (no recent audio) → leave it alone, no churn.
    assert!(!should_reload(true, 1, false, false));
    // Cooling down after a recent reload → wait.
    assert!(!should_reload(true, 1, true, true));
    // Module not even loaded → nothing to reload.
    assert!(!should_reload(false, 0, true, false));
}

#[test]
fn group_rows_are_matched_in_either_case_and_must_count() {
    assert_eq!(group_users("  2a2affef 7", v4(239, 255, 42, 42)), Some(7));
    assert_eq!(group_users("  2A2AFFEF x", v4(239, 255, 42, 42)), None);
    assert_eq!(group_users("  2A2AFFEF", v4(239, 255, 42, 42)), None);
    assert_eq!(group_users("2A2AFFEF 4294967295\n2A2AFFEF 1", v4(239, 255, 42, 42)), Some(u32::MAX));
}

#[test]
fn only_multicast_addresses_are_groups() {
    assert_eq!(multicast_group("239.255.42.42"), Some(v4(239, 255, 42, 42)));
    assert_eq!(multicast_group("240.0.0.1"), None);
    assert_eq!(multicast_group("0.0.0.0"), None);
    assert_eq!(parse_ipv4("1.2.3.4"), Some(v4(1, 2, 3, 4)));
    for bad in ["", "1.2.3", "1.2.3.4.5", "1.2.3.256", "01.2.3.4", "+1.2.3.4", "1.2.3.", "1.2.3.4 ", "a.b.c.d", "1000.1.1.1"] {
        assert_eq!(parse_ipv4(bad), None, "{bad}");
    }
}

#[test]
fn the_watchdog_reloads_a_stuck_source_and_then_waits() {
    let group = v4(239, 1, 2, 3);
    let mut w = Watchdog::new();
    assert!(w.needs_join("rtp-in-a", group, 5000));
    // Nothing is judged that is not watched.
    assert!(!w.observe("rtp-in-a", true, 0, true, 1));
    w.joined("rtp-in-a", group, 5000, true);
    assert!(!w.needs_join("rtp-in-a", group, 5000));
    assert!(w.needs_join("rtp-in-a", group, 5001));
    assert!(!w.observe("rtp-in-a", false, 1_000, true, 1), "no audio yet");
    assert!(!w.observe("rtp-in-a", true, 2_000, true, 2), "still joined");
    assert!(w.observe("rtp-in-a", false, 9_999, true, 1), "audio 7999 ms ago");
    assert!(!w.observe("rtp-in-a", true, 20_000, true, 0), "cooling down");
    // A new socket keeps the cooldown.
    w.joined("rtp-in-a", group, 6000, true);
    assert!(!w.observe("rtp-in-a", true, 29_998, true, 0));
    assert!(w.observe("rtp-in-a", true, 29_999, true, 0));
    w.joined("rtp-in-a", group, 6000, false);
    assert!(w.needs_join("rtp-in-a", group, 6000));
    w.joined("rtp-in-b", group, 1, true);
    w.retain(&NameSet::new());
    assert!(w.needs_join("rtp-in-b", group, 1));
}

fn node(name: &str) -> GlobalProps {
    GlobalProps {
        node_name: Some(name.to_string()),
        media_class: None,
        port_name: None,
        node_id: None,
        port_direction: None,
        link_output_node: None,
        link_input_node: None,
        link_output_port: None,
        link_input_port: None,
    }
}

#[test]
fn orphans_are_our_nodes_without_a_source_once_each_and_in_order() {
    let mut reg = RegistryState::new();
    for (id, name) in [(7, "rtp-in-z"), (8, "rtp-in-a"), (9, "rtp-in-z"), (10, "airplay-in"), (11, "rtp-in-kept")] {
        assert!(reg.add_global(id, node(name)));
    }
    let desired = NameSet::of(&vec!["rtp-in-kept".to_string()]);
    assert_eq!(orphaned_sources(&reg, &desired), vec!["rtp-in-a", "rtp-in-z"]);
}

#[test]
fn a_load_reports_what_went_wrong() {
    assert_eq!(load_result(false, None), Err("PipeWire thread is not running".to_string()));
    assert_eq!(load_result(true, None), Err("no reply from PipeWire thread".to_string()));
    assert_eq!(load_result(true, Some(Err("x".to_string()))), Err("x".to_string()));
    assert_eq!(load_result(true, Some(Ok(()))), Ok(()));
}
