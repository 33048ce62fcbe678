use bridge_daemon::devices::SendspinDevice;
use bridge_daemon::maps::NameMap;
use bridge_daemon::sendspin::SendspinCodec::{Auto, Flac, Opus, Pcm};
use bridge_daemon::sendspin::{
    can_encode, device_supports, group_codec_mode, record_timing_request, report_format_support, required_send_ahead_us, resolve_codec,
    resolve_node_name, stream_config, AudioFormatSpec, ConnectionReason, RelayStats, SendspinCodec, StreamPolicy,
};

fn codecs(list: &[&str]) -> Vec<String> {
    list.iter().map(|s| s.to_string()).collect()
}

#[test]
fn auto_prefers_opus_when_the_device_decodes_it() {
    assert!(can_encode("opus") && can_encode("flac") && can_encode("pcm"));
    let full = codecs(&["pcm", "flac", "opus"]);
    assert_eq!(resolve_codec(SendspinCodec::Auto, &vec![full]), "opus");
    // Auto never picks FLAC — lossless is a deliberate choice, not a default.
    let flac_only = codecs(&["pcm", "flac"]);
    assert_eq!(resolve_codec(SendspinCodec::Auto, &vec![flac_only]), "pcm");
    let pcm_only = codecs(&["pcm"]);
    assert_eq!(resolve_codec(SendspinCodec::Auto, &vec![pcm_only]), "pcm");
}

#[test]
fn an_explicit_pick_is_honoured_and_falls_back_to_pcm_when_unusable() {
    let device = vec![codecs(&["pcm", "opus"])];
    assert_eq!(resolve_codec(SendspinCodec::Opus, &device), "opus");
    assert_eq!(resolve_codec(SendspinCodec::Pcm, &device), "pcm");
    // The device doesn't advertise FLAC ⇒ PCM, never a stream it can't decode.
    assert_eq!(resolve_codec(SendspinCodec::Flac, &device), "pcm");
    let flac_capable = vec![codecs(&["pcm", "flac"])];
    assert_eq!(resolve_codec(SendspinCodec::Flac, &flac_capable), "flac");
}

#[test]
fn a_codec_must_work_for_every_member_of_the_group() {
    let members = vec![codecs(&["pcm", "opus"]), codecs(&["pcm"])];
    assert_eq!(resolve_codec(SendspinCodec::Auto, &members), "pcm");
    assert!(!device_supports(&members[1], "opus"));
    // Both capable ⇒ the group gets the compressed stream.
    let both = vec![codecs(&["pcm", "opus"]), codecs(&["pcm", "opus", "flac"])];
    assert_eq!(resolve_codec(SendspinCodec::Auto, &both), "opus");
}

fn voice_pe_formats(formats: &[(&str, u8)]) -> Vec<AudioFormatSpec> {
    formats.iter().map(|(codec, ch)| AudioFormatSpec { codec: codec.to_string(), channels: *ch, sample_rate: 48_000, bit_depth: 16 }).collect()
}

fn registry(node_name: &str, display_name: &str) -> NameMap<SendspinDevice> {
    let mut map = NameMap::new();
    map.insert(
        node_name.to_string(),
        SendspinDevice {
            fullname: format!("{display_name}._sendspin._tcp.local."),
            display_name: display_name.to_string(),
            addr: None,
            present: true,
            url: Some("ws://192.0.2.1:8928/sendspin".to_string()),
            supported_codecs: Vec::new(),
            min_buffer_ms: None,
            required_lead_time_ms: None,
        },
    );
    map
}

#[test]
fn capabilities_are_recorded_even_though_the_client_name_differs_from_the_discovery_name() {
    let node = "sendspin-dev-home_assistant_voice_093ca8";
    let mut devices = registry(node, "home-assistant-voice-093ca8");
    let formats = voice_pe_formats(&[("flac", 2), ("flac", 1), ("opus", 2), ("opus", 1), ("pcm", 2), ("pcm", 1)]);
    assert_ne!("Home Assistant Voice 093ca8", devices.get(node).unwrap().display_name, "the premise of this test");

    assert!(report_format_support(&mut devices, node, Some(&formats)), "first sight of the capabilities is a change");
    assert_eq!(devices.get(node).unwrap().supported_codecs, vec!["opus", "flac", "pcm"]);
    // …and the group can now actually pick Opus.
    let caps = devices.get(node).unwrap().supported_codecs.clone();
    assert_eq!(resolve_codec(SendspinCodec::Auto, &vec![caps]), "opus");
    // A reconnect with the same capabilities must NOT re-trigger a reconcile
    // (that would restart the group's stream for nothing).
    assert!(!report_format_support(&mut devices, node, Some(&formats)));
    // No capabilities at all, or an unknown device: nothing is recorded.
    assert!(!report_format_support(&mut devices, node, None));
    assert!(!report_format_support(&mut devices, "sendspin-dev-other", Some(&formats)));
}

#[test]
fn send_ahead_is_raised_to_the_largest_member_requirement() {
    let configured = 250_000; // 250 ms, the default group lead
    let pcm = |members: &[(Option<u32>, u16)]| required_send_ahead_us(configured, "pcm", 250, &members.to_vec());
    // Nothing reported yet (no device has connected) → the configured lead stands.
    assert_eq!(pcm(&[(None, 0)]), 250_000);
    // A member asking for less than the configured lead never lowers it — the user
    // may want more headroom than the hardware demands.
    assert_eq!(pcm(&[(Some(100), 0)]), 250_000);
    // A member asking for more raises it, and the spec has the server add that
    // member's static delay on top (players exclude it from their own figure).
    assert_eq!(pcm(&[(Some(400), 0)]), 400_000);
    assert_eq!(pcm(&[(Some(400), 60)]), 460_000);
    // A group takes the MAXIMUM across members, so the neediest one is covered.
    assert_eq!(pcm(&[(Some(300), 0), (Some(500), 20), (None, 0)]), 520_000);
}

#[test]
fn a_silent_device_still_gets_its_codecs_floor() {
    let configured = 100_000;
    // The Opus floor is an install's setting; 250 ms here.
    let lead = |codec: &str, member: (Option<u32>, u16)| required_send_ahead_us(configured, codec, 250, &vec![member]);
    assert_eq!(lead("pcm", (None, 0)), 100_000, "PCM imposes nothing");
    assert_eq!(lead("flac", (None, 0)), 100_000, "FLAC is proven at this lead");
    assert_eq!(lead("opus", (None, 0)), 250_000, "Opus needs decode headroom");
    // The device's own static delay still adds on top, since it plays that early.
    assert_eq!(lead("opus", (None, 40)), 290_000);
    // A device that DOES report wins over the codec floor, in both directions —
    // it knows its hardware better than our table does.
    assert_eq!(lead("opus", (Some(400), 0)), 400_000);
    assert_eq!(lead("opus", (Some(120), 0)), 120_000.max(configured));
}

#[test]
fn only_formats_at_our_wire_format_count_as_supported() {
    let node = "sendspin-dev-x";
    let mut devices = registry(node, "x");
    // Mono-only Opus and a PCM stereo entry: the mono Opus is no use to a stereo
    // stream, so it must not make Opus selectable.
    let formats = voice_pe_formats(&[("opus", 1), ("pcm", 2)]);
    assert!(report_format_support(&mut devices, node, Some(&formats)));
    assert_eq!(devices.get(node).unwrap().supported_codecs, vec!["pcm"]);
}

#[test]
fn a_device_we_have_never_connected_to_is_only_pcm_assured() {
    let unknown: Vec<String> = Vec::new();
    assert!(device_supports(&unknown, "pcm"));
    assert!(!device_supports(&unknown, "opus"));
}

#[test]
fn an_unknown_member_does_not_drag_the_group_off_its_codec() {
    let unknown: Vec<String> = Vec::new();
    let capable = codecs(&["pcm", "opus"]);
    assert_eq!(resolve_codec(SendspinCodec::Auto, &vec![capable.clone(), unknown.clone()]), "opus");
    // A member that HAS spoken and lacks the codec still vetoes it — the
    // conservative rule is only relaxed for genuine ignorance.
    let pcm_only = codecs(&["pcm"]);
    assert_eq!(resolve_codec(SendspinCodec::Auto, &vec![capable, pcm_only]), "pcm");
    // A group of nothing but unknowns still gets the preferred codec.
    let unknowns = vec![unknown];
    assert_eq!(resolve_codec(SendspinCodec::Auto, &unknowns), "opus");
    // An explicit pick is unaffected by ignorance in either direction.
    assert_eq!(resolve_codec(SendspinCodec::Pcm, &unknowns), "pcm");
    assert_eq!(resolve_codec(SendspinCodec::Flac, &unknowns), "flac");
}

#[test]
fn codec_names_are_compared_without_case() {
    assert!(can_encode("OPUS"));
    assert!(!can_encode("mp3"));
    assert!(device_supports(&codecs(&["Opus"]), "opus"));
    assert!(device_supports(&Vec::new(), "PCM"));
}

#[test]
fn the_least_permissive_pick_decides_for_the_group() {
    assert_eq!(group_codec_mode(&vec![Auto, Opus, Flac]), Flac);
    assert_eq!(group_codec_mode(&vec![Auto, Pcm, Flac]), Pcm);
    assert_eq!(group_codec_mode(&vec![Auto, Opus]), Opus);
    assert_eq!(group_codec_mode(&vec![]), Auto);
}

#[test]
fn a_timing_request_is_news_once() {
    let node = "sendspin-dev-x";
    let mut devices = registry(node, "x");
    assert!(record_timing_request(&mut devices, node, Some(300), None));
    assert!(!record_timing_request(&mut devices, node, Some(300), None));
    assert!(record_timing_request(&mut devices, node, Some(300), Some(5)));
    assert_eq!(devices.get(node).unwrap().min_buffer_ms, Some(300));
    assert!(!record_timing_request(&mut devices, "sendspin-dev-y", Some(1), None));
}

#[test]
fn a_fullname_resolves_through_the_registry_or_its_label() {
    let devices = registry("sendspin-dev-renamed", "kitchen");
    assert_eq!(resolve_node_name(&devices, "kitchen._sendspin._tcp.local."), "sendspin-dev-renamed");
    assert_eq!(resolve_node_name(&devices, "My Speaker._sendspin._tcp.local."), "sendspin-dev-my_speaker");
}

#[test]
fn a_dial_says_why() {
    assert_eq!(StreamPolicy::Always.connection_reason(), ConnectionReason::Playback);
    assert_eq!(StreamPolicy::WhenAnnounced.connection_reason(), ConnectionReason::Discovery);
}

#[test]
fn a_stream_is_announced_in_the_capture_format() {
    let c = stream_config("flac");
    assert_eq!((c.sample_rate, c.channels, c.bit_depth), (48_000, 2, 16));
    assert!(c.codec_header.unwrap().starts_with("ZkxhQ4AAACIE"));
    assert_eq!(stream_config("opus").codec_header, None);
}

#[test]
fn the_relay_watches_gap_lead_and_loss() {
    let mut s = RelayStats::new();
    s.note_block(20_000, 0, 100);
    assert_eq!((s.lead_min_us, s.lead_max_us), (20_000, 20_000));
    s.note_block(40_000, 25_000, 300);
    assert_eq!((s.gap_min_us, s.gap_max_us), (20_000, 20_000));
    s.note_block(61_000, 30_000, 200);
    assert_eq!((s.gap_min_us, s.gap_max_us), (20_000, 21_000));
    assert_eq!((s.lead_min_us, s.lead_max_us), (15_000, 31_000));
    assert_eq!((s.blocks, s.packet_max), (3, 300));
    s.note_chunk(2);
    s.note_chunk(1);
    assert_eq!(s.bursts, 1);
    assert!(!s.any_dropped());
    assert!(!s.report_due(None, 10_000));
    assert!(s.report_due(Some(960), 10_000));
    assert!(!s.report_due(Some(960), 9_999));
    s.note_dropped("b");
    s.note_dropped("a");
    s.note_dropped("b");
    assert!(s.report_due(None, 10_000));
    assert_eq!(s.dropped_report(), "a x1, b x2");
}
