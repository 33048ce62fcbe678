use bridge_daemon::devices::Ip;
use bridge_daemon::maps::{NameMap, NameSet};
use bridge_daemon::rtp::Ipv4;
use bridge_daemon::targets::{
    judge_targets, note_resolved, note_withdrawn, session_label, verdict, PwSinkLiveness, PwSinkStatus, PwTarget, Verdict, REMOVE_AFTER_MS,
    WITHDRAWN_GRACE_MS,
};

#[test]
fn advertised_target_stays_present() {
    assert_eq!(verdict(true, false, None), Verdict::Keep);
    assert_eq!(verdict(false, false, None), Verdict::SetPresent(true));
}

#[test]
fn a_short_withdrawal_is_ignored() {
    assert_eq!(verdict(true, false, Some(10_000)), Verdict::Keep);
}

#[test]
fn a_streaming_target_survives_any_withdrawal() {
    assert_eq!(verdict(true, true, Some(REMOVE_AFTER_MS * 2)), Verdict::Keep);
    // ...and comes back online if it was demoted before the session came up.
    assert_eq!(verdict(false, true, Some(REMOVE_AFTER_MS * 2)), Verdict::SetPresent(true));
}

#[test]
fn a_lasting_withdrawal_demotes_then_removes() {
    assert_eq!(verdict(true, false, Some(WITHDRAWN_GRACE_MS)), Verdict::SetPresent(false));
    assert_eq!(verdict(false, false, Some(WITHDRAWN_GRACE_MS)), Verdict::Keep);
    assert_eq!(verdict(false, false, Some(REMOVE_AFTER_MS)), Verdict::Remove);
}

fn ip(d: u8) -> Ip {
    Ip::V4(Ipv4 { a: 10, b: 0, c: 0, d })
}

#[test]
fn a_target_comes_goes_and_comes_back() {
    let mut t: NameMap<PwTarget> = NameMap::new();
    assert!(note_resolved(&mut t, "fedora".into(), "fedora._pipewire-audio._udp.local.".into(), Some(ip(1))));
    // A repeated resolve is no news, and keeps the address where it brings none.
    assert!(!note_resolved(&mut t, "fedora".into(), "fedora._pipewire-audio._udp.local.".into(), None));
    assert_eq!(t.get("pwsink-dev-fedora").unwrap().addr, Some(ip(1)));
    // Our own sessions and nameless ones are passed over.
    assert!(!note_resolved(&mut t, "pwrouter-fedora".into(), "x".into(), None));
    assert!(!note_resolved(&mut t, "".into(), "x".into(), None));
    assert_eq!(t.len(), 1);

    note_withdrawn(&mut t, "fedora._pipewire-audio._udp.local.", 1_000);
    note_withdrawn(&mut t, "fedora._pipewire-audio._udp.local.", 9_000);
    note_withdrawn(&mut t, "nobody", 9_000);
    assert_eq!(t.get("pwsink-dev-fedora").unwrap().withdrawn_since, Some(1_000));

    let nobody = NameSet::new();
    assert!(!judge_targets(&mut t, &nobody, 45_999));
    assert!(judge_targets(&mut t, &nobody, 46_000));
    assert!(!t.get("pwsink-dev-fedora").unwrap().present);
    // An attached receiver is proof of life.
    let attached = NameSet::of(&vec!["pwsink-dev-fedora".to_string()]);
    assert!(judge_targets(&mut t, &attached, 999_000));
    assert!(t.get("pwsink-dev-fedora").unwrap().present);
    assert!(judge_targets(&mut t, &nobody, 301_000));
    assert_eq!(t.len(), 0);
}

#[test]
fn the_label_is_in_front_of_the_service_type() {
    assert_eq!(session_label("fedora._pipewire-audio._udp.local."), "fedora");
    assert_eq!(session_label(" spaced ._pipewire-audio._udp.local."), "spaced");
    assert_eq!(session_label("plain"), "plain");
}

#[test]
fn only_a_changed_handshake_notifies() {
    let mut l = PwSinkLiveness::new();
    let up = PwSinkStatus { established: true, peer_count: 1 };
    let down = PwSinkStatus { established: false, peer_count: 0 };
    assert!(l.set("a", down));
    assert!(!l.set("a", down));
    assert!(l.set("a", up));
    assert!(!l.set("a", PwSinkStatus { established: true, peer_count: 2 }));
    assert!(l.established("a"));
    assert!(l.remove("a"));
    assert!(!l.remove("a"));
    assert_eq!(l.get("a"), None);
    l.set("b", down);
    assert!(!l.remove("b"));
}
