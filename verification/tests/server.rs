use bridge_daemon::codec::{Encoder, Payload};
use bridge_daemon::devices::SendspinDevice;
use bridge_daemon::maps::{NameMap, NameSet};
use bridge_daemon::membership::{Membership, ANNOUNCE_DRAIN_MS, READY_GRACE_MS};
use bridge_daemon::relay::{Relay, RelayMember, Sent};
use bridge_daemon::sendspin::{AudioFormatSpec, StreamPolicy, STATS_INTERVAL_MS};
use bridge_daemon::server::{
    reported_client_state, reported_player_state, reported_timing, ClientMessage, Connection, Origin, PlayerReport, ServerEffect, SyncState,
};

fn registry() -> NameMap<SendspinDevice> {
    let mut out = NameMap::new();
    out.insert(
        "sendspin-dev-kitchen".to_string(),
        SendspinDevice {
            fullname: "kitchen._sendspin._tcp.local.".to_string(),
            display_name: "Kitchen".to_string(),
            addr: None,
            present: true,
            url: None,
            supported_codecs: Vec::new(),
            min_buffer_ms: None,
            required_lead_time_ms: None,
        },
    );
    out
}

fn formats(codecs: &[&str]) -> Vec<AudioFormatSpec> {
    codecs.iter().map(|c| AudioFormatSpec { codec: c.to_string(), channels: 2, sample_rate: 48_000, bit_depth: 16 }).collect()
}

fn player(volume: Option<u8>, muted: Option<bool>, min_buffer_ms: Option<u32>) -> ClientMessage {
    ClientMessage::State {
        sync: Some(SyncState::Synchronized),
        player: Some(PlayerReport { volume, muted, min_buffer_ms, required_lead_time_ms: None }),
    }
}

fn label(e: &ServerEffect) -> String {
    match e {
        ServerEffect::Reconcile => "reconcile".to_string(),
        ServerEffect::Register { node } => format!("register {node}"),
        ServerEffect::Volume { node, volume } => format!("volume {node} {volume}"),
        ServerEffect::Mute { node, muted } => format!("mute {node} {muted}"),
        ServerEffect::Unregister { node } => format!("unregister {node}"),
    }
}

fn labels(v: Vec<ServerEffect>) -> Vec<String> {
    v.iter().map(label).collect()
}

#[test]
fn messages_are_read_field_by_field() {
    let m = player(Some(40), None, Some(200));
    assert_eq!(reported_player_state(m), Some((Some(40), None)));
    assert_eq!(reported_client_state(m), Some(Some(SyncState::Synchronized)));
    assert_eq!(reported_timing(m), Some((Some(200), None)));
    assert_eq!(reported_timing(player(Some(40), None, None)), None);
    let bare = ClientMessage::State { sync: None, player: None };
    assert_eq!(reported_player_state(bare), None);
    assert_eq!(reported_client_state(bare), Some(None));
    assert_eq!(reported_client_state(ClientMessage::Other), None);
}

#[test]
fn a_client_joins_speaks_and_leaves() {
    let mut devices = registry();
    let mut m = Membership::new();
    let origin = Origin::Dialed { fullname: "kitchen._sendspin._tcp.local.".to_string() };
    let (node, todo) = m.join(&mut devices, "c1", &origin, Some(&formats(&["opus", "pcm"])), 0);
    assert_eq!(node, "sendspin-dev-kitchen");
    // What it decodes is news once.
    assert_eq!(labels(todo), vec!["reconcile", "register sendspin-dev-kitchen"]);
    assert_eq!(devices.get("sendspin-dev-kitchen").unwrap().supported_codecs, vec!["opus", "pcm"]);
    let (_, again) = m.join(&mut devices, "c1", &origin, Some(&formats(&["opus", "pcm"])), 10);
    assert_eq!(labels(again), vec!["register sendspin-dev-kitchen"]);

    // Nothing is streamed to it before it has spoken, unless it stays silent.
    assert!(m.promotions(StreamPolicy::Always, &NameSet::new(), 20).is_empty());
    assert_eq!(m.promotions(StreamPolicy::Always, &NameSet::new(), 10 + READY_GRACE_MS), vec!["c1"]);
    let todo = m.message(&mut devices, "c1", &Connection::Dialed, player(Some(35), Some(true), Some(250)));
    assert_eq!(labels(todo), vec!["volume sendspin-dev-kitchen 35", "mute sendspin-dev-kitchen true", "reconcile"]);
    assert_eq!(devices.get("sendspin-dev-kitchen").unwrap().min_buffer_ms, Some(250));
    assert!(labels(m.message(&mut devices, "c1", &Connection::Dialed, player(None, None, Some(250)))).is_empty());
    assert_eq!(m.promotions(StreamPolicy::Always, &NameSet::new(), 20), vec!["c1"]);
    m.promoted("c1");
    assert!(m.promotions(StreamPolicy::Always, &NameSet::new(), 20).is_empty());

    assert_eq!(labels(m.leave("c1", &Connection::Dialed)), vec!["unregister sendspin-dev-kitchen"]);
    assert!(labels(m.leave("c1", &Connection::Dialed)).is_empty());
    assert!(m.shutdown().is_empty());
}

#[test]
fn a_device_that_dials_in_is_known_by_its_name() {
    let mut devices = registry();
    let mut m = Membership::new();
    let (node, todo) = m.join(&mut devices, "c7", &Origin::Accepted { name: "Living Room".to_string() }, None, 0);
    assert_eq!(node, "sendspin-dev-living_room");
    assert_eq!(labels(todo), vec!["register sendspin-dev-living_room"]);
    let own = Connection::Accepted { node: node.clone() };
    assert_eq!(labels(m.message(&mut devices, "c7", &own, player(Some(1), None, None))), vec!["volume sendspin-dev-living_room 1"]);
    assert_eq!(labels(m.leave("c7", &own)), vec!["unregister sendspin-dev-living_room"]);
}

#[test]
fn one_device_can_be_taken_out_alone() {
    let mut devices = registry();
    let mut m = Membership::new();
    let origin = Origin::Dialed { fullname: "kitchen._sendspin._tcp.local.".to_string() };
    m.join(&mut devices, "c1", &origin, None, 0);
    m.join(&mut devices, "c2", &Origin::Accepted { name: "bath".to_string() }, None, 0);
    m.promoted("c1");
    m.promoted("c2");
    assert_eq!(m.stop_device(&devices, "kitchen._sendspin._tcp.local."), Some("c1".to_string()));
    assert_eq!(m.stop_device(&devices, "kitchen._sendspin._tcp.local."), None);
    assert_eq!(m.stop_device(&devices, "nobody._sendspin._tcp.local."), None);
    assert_eq!(m.shutdown(), vec!["c2"]);
}

#[test]
fn an_idle_device_streams_only_around_an_announcement() {
    let mut devices = registry();
    let mut m = Membership::new();
    m.join(&mut devices, "c1", &Origin::Accepted { name: "bath".to_string() }, None, 0);
    m.reported("c1");
    let idle = NameSet::new();
    let mut busy = NameSet::new();
    busy.insert("sendspin-dev-bath".to_string());
    assert!(m.promotions(StreamPolicy::WhenAnnounced, &idle, 100).is_empty());
    assert_eq!(m.promotions(StreamPolicy::WhenAnnounced, &busy, 100), vec!["c1"]);
    m.promoted("c1");
    assert!(m.demote(StreamPolicy::WhenAnnounced, &busy, 200).is_empty());
    // What is queued on it is still heard.
    assert!(m.demote(StreamPolicy::WhenAnnounced, &idle, 1000).is_empty());
    assert!(m.demote(StreamPolicy::WhenAnnounced, &idle, 1000 + ANNOUNCE_DRAIN_MS - 1).is_empty());
    assert_eq!(m.demote(StreamPolicy::WhenAnnounced, &idle, 1000 + ANNOUNCE_DRAIN_MS), vec!["c1"]);
    assert!(m.demote(StreamPolicy::Always, &idle, 9000).is_empty());
}

// ---- the relay --------------------------------------------------------------------------------

fn member(id: &str, overlay: Option<Vec<u8>>) -> RelayMember {
    RelayMember { client_id: id.to_string(), overlay }
}

fn sent(name: &str, size: usize, dropped: bool) -> Sent {
    Sent { name: name.to_string(), size, dropped }
}

#[test]
fn pcm_goes_out_as_it_came_in() {
    let mut relay = Relay::new("pcm", None);
    relay.blocker.push(&[1, 2, 3, 4, 5, 6, 7, 8]);
    let len = relay.blocker.ready().unwrap();
    let out = relay.fan_out(len, &vec![member("a", None), member("b", Some(vec![9; 8]))]);
    let bytes = |p: &Option<Payload>| match p {
        Some(Payload::Bytes(b)) => b.clone(),
        _ => panic!("expected bytes"),
    };
    assert_eq!(bytes(&out[0]), vec![1, 2, 3, 4, 5, 6, 7, 8]);
    assert_eq!(bytes(&out[1]), vec![9; 8]);
    assert_eq!(relay.encoders.keys(), vec!["a", "b"]);
    // A member that left takes its encoder along.
    relay.fan_out(len, &vec![member("b", None), member("c", None)]);
    assert_eq!(relay.encoders.keys(), vec!["b", "c"]);
    assert_eq!(relay.stamp(1_000), 1_000);
}

#[test]
fn compressed_streams_are_cut_and_numbered_per_member() {
    let mut relay = Relay::new("flac", None);
    relay.blocker.push(&vec![0u8; 4 * 1024 + 100]);
    let len = relay.blocker.ready().unwrap();
    assert_eq!(len, 4 * 1024);
    let first = relay.fan_out(len, &vec![member("a", None)]);
    relay.finish_block(len, 5_000, 1_000, &vec![sent("a", 20, false)]);
    assert!(relay.blocker.ready().is_none());
    relay.blocker.push(&vec![0u8; 4 * 1024]);
    let second = relay.fan_out(len, &vec![member("a", None), member("b", None)]);
    let bytes = |p: &Option<Payload>| match p {
        Some(Payload::Bytes(b)) => b.clone(),
        _ => panic!("expected a frame"),
    };
    // The newcomer starts where the other one started; a frame tells its number.
    assert_eq!(bytes(&second[1]), bytes(&first[0]));
    assert_ne!(bytes(&second[0]), bytes(&first[0]));
    assert!(matches!(relay.encoders.get("a"), Some(Encoder::Flac(f)) if f.frame_number() == 2));
    assert!(matches!(relay.encoders.get("b"), Some(Encoder::Flac(f)) if f.frame_number() == 1));
}

#[test]
fn opus_is_stamped_earlier_by_its_lookahead() {
    let mut relay = Relay::new("opus", Some(312));
    assert_eq!(relay.stamp(10_000), 3_500);
    relay.blocker.push(&vec![0u8; 960 * 4]);
    let len = relay.blocker.ready().unwrap();
    match &relay.fan_out(len, &vec![member("a", None)])[0] {
        Some(Payload::Opus(s)) => assert_eq!(s.len(), 1920),
        _ => panic!("expected samples"),
    }
}

#[test]
fn the_relay_reports_losses_and_starts_anew() {
    let mut relay = Relay::new("pcm", None);
    relay.blocker.push(&[0; 16]);
    relay.finish_block(8, 21_000, 1_000, &vec![sent("kitchen", 8, true), sent("bath", 9, false)]);
    relay.finish_block(8, 42_000, 2_000, &vec![sent("kitchen", 3, true)]);
    assert_eq!(relay.stats.packet_max, 9);
    assert_eq!((relay.stats.gap_min_us, relay.stats.gap_max_us), (21_000, 21_000));
    assert_eq!((relay.stats.lead_min_us, relay.stats.lead_max_us), (20_000, 40_000));
    assert!(relay.chunk_done(2, STATS_INTERVAL_MS - 1).is_none());
    let report = relay.chunk_done(1, STATS_INTERVAL_MS).unwrap();
    assert_eq!(report.blocks, 2);
    assert_eq!(report.bursts, 1);
    assert_eq!(report.dropped_report(), "kitchen x2");
    let s = &relay.stats;
    assert_eq!((s.blocks, s.bursts, s.packet_max, s.prev_ts), (0, 0, 0, None));
    assert_eq!((s.gap_min_us, s.gap_max_us, s.lead_min_us, s.lead_max_us), (0, 0, 0, 0));
    // A passed-through stream that lost nothing has nothing to say.
    assert!(relay.chunk_done(1, STATS_INTERVAL_MS).is_none());
}
