use bridge_daemon::modules::{
    is_rtp_source_node, raop_module_args, raop_node_name, rtp_sink_module_args, rtp_source_module_args, RaopEncryption, RaopOutputConfig,
    DEFAULT_PWSINK_PORT, DEFAULT_RTP_IGNORE_SSRC, DEFAULT_RTP_LATENCY_MSEC, DEFAULT_RTP_RATE, DEFAULT_RTP_SOURCE_ADDR,
};

const RTP_SOURCE_NODE_NAME: &str = "bt-bridge-rtp";

#[test]
fn sink_args_are_a_braced_object_with_unicast_dest_and_sap_flag() {
    let args = rtp_sink_module_args("pwsink-spike", "pw-router-spike", "192.168.178.21", DEFAULT_PWSINK_PORT, None);
    assert!(args.starts_with("{ ") && args.ends_with('}'));
    assert!(args.contains("destination.ip = \"192.168.178.21\""));
    assert!(args.contains("destination.port = 5004"));
    assert!(args.contains("audio.format = \"S16LE\""));
    assert!(args.contains("audio.rate = 48000"));
    assert!(args.contains("audio.channels = 2"));
    assert!(args.contains("media.class = \"Audio/Sink\""));
    assert!(args.contains("node.name = \"pwsink-spike\""));
    assert!(args.contains("sess.sap.announce = true"));
    assert!(args.contains("node.always-process = true"));
    assert!(!args.contains("local.ifname"));
}

#[test]
fn sink_args_pin_the_interface_when_given() {
    let args = rtp_sink_module_args("pwsink-spike", "s", "192.168.178.21", 5004, Some("end0"));
    assert!(args.contains("local.ifname = \"end0\""));
}

#[test]
fn sink_args_in_full() {
    assert_eq!(
        rtp_sink_module_args("n", "s", "10.0.0.1", 5004, Some("eth0")),
        "{ local.ifname = \"eth0\" destination.ip = \"10.0.0.1\" destination.port = 5004 net.ttl = 16 sess.min-ptime = 2 sess.max-ptime = 2 \
         sess.name = \"s\" sess.media = \"audio\" audio.format = \"S16LE\" audio.rate = 48000 audio.channels = 2 stream.props = { media.class = \
         \"Audio/Sink\" node.name = \"n\" node.description = \"s\" sess.sap.announce = true node.always-process = true } }"
    );
}

#[test]
fn module_args_carry_the_firmware_wire_format() {
    let args = rtp_source_module_args(
        RTP_SOURCE_NODE_NAME,
        46000,
        DEFAULT_RTP_LATENCY_MSEC,
        DEFAULT_RTP_SOURCE_ADDR,
        DEFAULT_RTP_IGNORE_SSRC,
        DEFAULT_RTP_RATE,
    );
    assert!(args.starts_with("{ ") && args.ends_with('}'));
    assert!(args.contains("source.ip = \"0.0.0.0\""));
    assert!(args.contains("source.port = 46000"));
    assert!(args.contains("sess.ignore-ssrc = true"));
    assert!(args.contains("sess.latency.msec = 200"));
    assert!(args.contains("audio.format = \"S16LE\""));
    assert!(args.contains("audio.rate = 48000"));
    assert!(args.contains("audio.channels = 2"));
    assert!(args.contains("stream.props = { media.class = \"Audio/Source\""));
    assert!(args.contains("node.name = \"bt-bridge-rtp\""));
}

#[test]
fn module_args_honor_a_custom_port() {
    let args = rtp_source_module_args(
        RTP_SOURCE_NODE_NAME,
        47100,
        DEFAULT_RTP_LATENCY_MSEC,
        DEFAULT_RTP_SOURCE_ADDR,
        DEFAULT_RTP_IGNORE_SSRC,
        DEFAULT_RTP_RATE,
    );
    assert!(args.contains("source.port = 47100"));
}

#[test]
fn module_args_honor_a_custom_latency() {
    let args = rtp_source_module_args(RTP_SOURCE_NODE_NAME, 46000, 350, DEFAULT_RTP_SOURCE_ADDR, DEFAULT_RTP_IGNORE_SSRC, DEFAULT_RTP_RATE);
    assert!(args.contains("sess.latency.msec = 350"));
}

#[test]
fn module_args_honor_a_multicast_source_address() {
    let args =
        rtp_source_module_args(RTP_SOURCE_NODE_NAME, 46000, DEFAULT_RTP_LATENCY_MSEC, "239.255.42.42", DEFAULT_RTP_IGNORE_SSRC, DEFAULT_RTP_RATE);
    assert!(args.contains("source.ip = \"239.255.42.42\""));
}

#[test]
fn module_args_honor_ignore_ssrc_false() {
    let args = rtp_source_module_args(RTP_SOURCE_NODE_NAME, 46000, DEFAULT_RTP_LATENCY_MSEC, DEFAULT_RTP_SOURCE_ADDR, false, DEFAULT_RTP_RATE);
    assert!(args.contains("sess.ignore-ssrc = false"));
}

#[test]
fn module_args_honor_a_custom_rate() {
    let args =
        rtp_source_module_args(RTP_SOURCE_NODE_NAME, 46000, DEFAULT_RTP_LATENCY_MSEC, DEFAULT_RTP_SOURCE_ADDR, DEFAULT_RTP_IGNORE_SSRC, 44100);
    assert!(args.contains("audio.rate = 44100"));
}

#[test]
fn module_args_honor_a_custom_node_name() {
    let args = rtp_source_module_args(
        "rtp-in-garage",
        46000,
        DEFAULT_RTP_LATENCY_MSEC,
        DEFAULT_RTP_SOURCE_ADDR,
        DEFAULT_RTP_IGNORE_SSRC,
        DEFAULT_RTP_RATE,
    );
    assert!(args.contains("node.name = \"rtp-in-garage\""));
}

#[test]
fn rtp_source_node_name_recognition() {
    assert!(is_rtp_source_node(RTP_SOURCE_NODE_NAME)); // "bt-bridge-rtp"
    assert!(is_rtp_source_node("rtp-in-garage"));
    assert!(is_rtp_source_node("rtp-in-anything-else"));
    assert!(!is_rtp_source_node("airplay-in"));
    assert!(!is_rtp_source_node("airplay-in-kitchen"));
    assert!(!is_rtp_source_node("sendspin-dev-aabbcc"));
}

#[test]
fn source_args_in_full() {
    assert_eq!(
        rtp_source_module_args("n", 1, 2, "a", true, 3),
        "{ source.ip = \"a\" source.port = 1 sess.media = \"audio\" sess.ignore-ssrc = true sess.latency.msec = 2 audio.format = \"S16LE\" \
         audio.rate = 3 audio.channels = 2 stream.props = { media.class = \"Audio/Source\" node.name = \"n\" } }"
    );
}

#[test]
fn node_name_uses_prefix_and_slug() {
    assert_eq!(raop_node_name("Pioneer VSX-934"), "raop-out-pioneer_vsx_934");
}

#[test]
fn module_args_carry_every_field_the_module_needs() {
    let output = RaopOutputConfig {
        name: "Pioneer VSX-934".to_string(),
        ip: "192.168.178.35".to_string(),
        port: 7000,
        encryption: RaopEncryption::AuthSetup,
    };
    let args = raop_module_args(&output);
    assert!(args.starts_with("{ ") && args.ends_with('}'));
    assert!(args.contains("raop.ip = \"192.168.178.35\""));
    assert!(args.contains("raop.port = 7000"));
    assert!(args.contains("raop.name = \"Pioneer VSX-934\""));
    assert!(args.contains("raop.encryption.type = \"auth_setup\""));
    assert!(args.contains("audio.format = \"S16\""));
    assert!(args.contains("node.name = \"raop-out-pioneer_vsx_934\""));
}

#[test]
fn module_args_honor_non_default_encryption() {
    let output = RaopOutputConfig {
        name: "Dusche".to_string(),
        ip: "192.168.178.165".to_string(),
        port: 5000,
        encryption: RaopEncryption::Unencrypted,
    };
    let args = raop_module_args(&output);
    assert!(args.contains("raop.encryption.type = \"none\""));
    assert!(args.contains("raop.port = 5000"));
}
