use bridge_daemon::names::{
    device_node_name, is_own_advert, kind_or_output, output_display_name, session_name_for, slugify, target_node_name, OutputKind,
    SPIKE_SESSION_NAME,
};

#[test]
fn target_node_name_uses_prefix_and_slug() {
    assert_eq!(target_node_name("david-local"), "pwsink-dev-david_local");
}

#[test]
fn own_adverts_are_filtered() {
    assert!(is_own_advert("pwrouter-living_room"));
    assert!(is_own_advert(SPIKE_SESSION_NAME));
    assert!(!is_own_advert("fedora"));
    assert!(!is_own_advert("some-other-host"));
}

#[test]
fn device_node_name_uses_prefix_and_slug() {
    assert_eq!(device_node_name("Voice PE Kitchen"), "sendspin-dev-voice_pe_kitchen");
}

#[test]
fn a_session_is_named_after_its_target_and_is_our_own() {
    assert_eq!(session_name_for("pwsink-dev-david_local"), "pwrouter-david_local");
    assert_eq!(session_name_for("elsewhere"), "pwrouter-elsewhere");
    assert!(is_own_advert(&session_name_for("pwsink-dev-x")));
}

#[test]
fn display_names_drop_the_prefix_and_show_blanks() {
    assert_eq!(output_display_name("sendspin-dev-voice_pe-kitchen"), "voice pe kitchen");
    assert_eq!(output_display_name("sendspin-out-den"), "den");
    assert_eq!(output_display_name("ap2-dev-dusche"), "dusche");
    assert_eq!(output_display_name("pwsink-dev-a_b"), "a b");
    assert_eq!(output_display_name("airplay-in"), "airplay-in");
}

#[test]
fn the_kind_is_read_off_the_prefix() {
    assert_eq!(OutputKind::of("sendspin-dev-a"), Some(OutputKind::Sendspin));
    assert_eq!(OutputKind::of("ap2-dev-a"), Some(OutputKind::Airplay2));
    assert_eq!(OutputKind::of("pwsink-dev-a"), Some(OutputKind::PwSink));
    assert_eq!(OutputKind::of("sync-grp-a"), None);
    for kind in OutputKind::all() {
        assert_eq!(OutputKind::of(&format!("{}x", kind.prefix())), Some(kind));
        assert_eq!(kind_or_output(Some(kind)), kind.human());
    }
    assert_eq!(kind_or_output(None), "output");
}

#[test]
fn a_slug_is_stable() {
    assert_eq!(slugify("Küche 2"), "k_che_2");
    assert_eq!(slugify(&slugify("Küche 2")), "k_che_2");
}

#[test]
fn a_slug_stays_as_it_is() {
    let slug = slugify("Voice PE Kitchen");
    assert_eq!(slug, "voice_pe_kitchen");
    assert_eq!(slugify(&slug), slug);
}
