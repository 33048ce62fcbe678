//! The arguments of the PipeWire modules this daemon loads into its own context,
//! as the braced objects that the modules parse.

use crate::names::{slug, slugify};
use crate::text::{decimal, joined2, push_decimal, same, starts_with};
use vstd::prelude::*;

verus! {

/// The module that provides an RTP sink.
pub const PWSINK_MODULE_NAME: &'static str = "libpipewire-module-rtp-sink";

/// The default RTP media port.
pub const DEFAULT_PWSINK_PORT: u16 = 5004;

/// The module that provides an RTP source.
pub const RTP_SOURCE_MODULE_NAME: &'static str = "libpipewire-module-rtp-source";

/// The default port an RTP source listens on.
pub const DEFAULT_RTP_PORT: u16 = 46000;

/// The default jitter buffer of an RTP source, in milliseconds.
pub const DEFAULT_RTP_LATENCY_MSEC: u32 = 200;

/// The default address of an RTP source: any, which is plain unicast.
pub const DEFAULT_RTP_SOURCE_ADDR: &'static str = "0.0.0.0";

/// Whether an RTP source accepts every sender by default.
pub const DEFAULT_RTP_IGNORE_SSRC: bool = true;

/// The default rate of an RTP source, in Hz.
pub const DEFAULT_RTP_RATE: u32 = 48000;

/// The name of the one RTP source that has no id of its own.
pub const LEGACY_RTP_ID: &'static str = "bt-bridge-rtp";

/// The node names of RAOP sinks.
pub const RAOP_NODE_PREFIX: &'static str = "raop-out-";

/// The module that provides a RAOP sink.
pub const RAOP_MODULE_NAME: &'static str = "libpipewire-module-raop-sink";

/// A setting whose value stands in quotes: the key, the value, and a blank.
pub open spec fn quoted(key: Seq<char>, value: Seq<char>) -> Seq<char> {
    key + " = \""@ + value + "\" "@
}

/// A setting whose value is a number.
pub open spec fn numbered(key: Seq<char>, value: int) -> Seq<char> {
    key + " = "@ + decimal(value) + " "@
}

fn push_quoted(a: &mut String, key: &str, value: &str)
    ensures
        final(a)@ == old(a)@ + quoted(key@, value@),
{
    a.append(key);
    a.append(" = \"");
    a.append(value);
    a.append("\" ");
    assert(a@ =~= old(a)@ + quoted(key@, value@));
}

fn push_numbered(a: &mut String, key: &str, value: u64)
    ensures
        final(a)@ == old(a)@ + numbered(key@, value as int),
{
    a.append(key);
    a.append(" = ");
    push_decimal(a, value);
    a.append(" ");
    assert(a@ =~= old(a)@ + numbered(key@, value as int));
}

// ---- RTP sink ----------------------------------------------------------------

/// The arguments of an RTP sink that sends S16LE/48 kHz/stereo to one host and
/// is announced to it.
pub open spec fn rtp_sink_args(
    node_name: Seq<char>,
    sess_name: Seq<char>,
    dest_ip: Seq<char>,
    port: int,
    ifname: Option<Seq<char>>,
) -> Seq<char> {
    "{ "@ + (match ifname {
        Some(i) => quoted("local.ifname"@, i),
        None => Seq::empty(),
    }) + quoted("destination.ip"@, dest_ip) + numbered("destination.port"@, port)
        + "net.ttl = 16 "@ + "sess.min-ptime = 2 "@ + "sess.max-ptime = 2 "@ + quoted(
        "sess.name"@,
        sess_name,
    ) + "sess.media = \"audio\" "@ + "audio.format = \"S16LE\" "@ + "audio.rate = 48000 "@
        + "audio.channels = 2 "@ + "stream.props = { media.class = \"Audio/Sink\" "@ + quoted(
        "node.name"@,
        node_name,
    ) + quoted("node.description"@, sess_name)
        + "sess.sap.announce = true node.always-process = true } "@ + "}"@
}

/// The arguments of an RTP sink that sends to `dest_ip:port`.
pub fn rtp_sink_module_args(
    node_name: &str,
    sess_name: &str,
    dest_ip: &str,
    port: u16,
    ifname: Option<&str>,
) -> (r: String)
    ensures
        r@ == rtp_sink_args(
            node_name@,
            sess_name@,
            dest_ip@,
            port as int,
            match ifname {
                Some(i) => Some(i@),
                None => None,
            },
        ),
{
    let mut a = String::from_str("{ ");
    if let Some(iface) = ifname {
        push_quoted(&mut a, "local.ifname", iface);
    } else {
        assert(a@ =~= "{ "@ + Seq::<char>::empty());
    }
    push_quoted(&mut a, "destination.ip", dest_ip);
    push_numbered(&mut a, "destination.port", port as u64);
    a.append("net.ttl = 16 ");
    a.append("sess.min-ptime = 2 ");
    a.append("sess.max-ptime = 2 ");
    push_quoted(&mut a, "sess.name", sess_name);
    a.append("sess.media = \"audio\" ");
    a.append("audio.format = \"S16LE\" ");
    a.append("audio.rate = 48000 ");
    a.append("audio.channels = 2 ");
    a.append("stream.props = { media.class = \"Audio/Sink\" ");
    push_quoted(&mut a, "node.name", node_name);
    push_quoted(&mut a, "node.description", sess_name);
    a.append("sess.sap.announce = true node.always-process = true } ");
    a.append("}");
    a
}

// ---- RTP source --------------------------------------------------------------

pub open spec fn bool_text(b: bool) -> Seq<char> {
    if b {
        "true"@
    } else {
        "false"@
    }
}

/// The arguments of an RTP source: S16LE, stereo, on this port and address.
pub open spec fn rtp_source_args(
    node_name: Seq<char>,
    port: int,
    latency_msec: int,
    source_addr: Seq<char>,
    ignore_ssrc: bool,
    rate: int,
) -> Seq<char> {
    "{ "@ + quoted("source.ip"@, source_addr) + numbered("source.port"@, port)
        + "sess.media = \"audio\" "@ + "sess.ignore-ssrc = "@ + bool_text(ignore_ssrc) + " "@
        + numbered("sess.latency.msec"@, latency_msec) + "audio.format = \"S16LE\" "@ + numbered(
        "audio.rate"@,
        rate,
    ) + "audio.channels = 2 "@ + "stream.props = { media.class = \"Audio/Source\" "@ + quoted(
        "node.name"@,
        node_name,
    ) + "} "@ + "}"@
}

/// The arguments of an RTP source.
pub fn rtp_source_module_args(
    node_name: &str,
    port: u16,
    latency_msec: u32,
    source_addr: &str,
    ignore_ssrc: bool,
    rate: u32,
) -> (r: String)
    ensures
        r@ == rtp_source_args(
            node_name@,
            port as int,
            latency_msec as int,
            source_addr@,
            ignore_ssrc,
            rate as int,
        ),
{
    let mut a = String::from_str("{ ");
    push_quoted(&mut a, "source.ip", source_addr);
    push_numbered(&mut a, "source.port", port as u64);
    a.append("sess.media = \"audio\" ");
    a.append("sess.ignore-ssrc = ");
    if ignore_ssrc {
        a.append("true");
    } else {
        a.append("false");
    }
    a.append(" ");
    push_numbered(&mut a, "sess.latency.msec", latency_msec as u64);
    a.append("audio.format = \"S16LE\" ");
    push_numbered(&mut a, "audio.rate", rate as u64);
    a.append("audio.channels = 2 ");
    a.append("stream.props = { media.class = \"Audio/Source\" ");
    push_quoted(&mut a, "node.name", node_name);
    a.append("} ");
    a.append("}");
    a
}

/// A node name of an RTP source: the one without an id, or one with the prefix.
pub open spec fn rtp_source_node(node_name: Seq<char>) -> bool {
    node_name == LEGACY_RTP_ID@ || "rtp-in-"@.is_prefix_of(node_name)
}

/// Whether a node name belongs to an RTP source that this daemon manages.
pub fn is_rtp_source_node(node_name: &str) -> (r: bool)
    ensures
        r == rtp_source_node(node_name@),
{
    same(node_name, LEGACY_RTP_ID) || starts_with(node_name, "rtp-in-")
}

// ---- RAOP sink ---------------------------------------------------------------

/// How a RAOP receiver wants its stream encrypted.
#[derive(Clone, Copy, Debug, PartialEq, Eq, Structural)]
pub enum RaopEncryption {
    Unencrypted,
    AuthSetup,
}

/// The module's word for an encryption.
pub open spec fn encryption_arg(e: RaopEncryption) -> Seq<char> {
    match e {
        RaopEncryption::Unencrypted => "none"@,
        RaopEncryption::AuthSetup => "auth_setup"@,
    }
}

impl RaopEncryption {
    /// The module's word for this encryption.
    pub fn as_pipewire_arg(self) -> (r: &'static str)
        ensures
            r@ == encryption_arg(self),
    {
        match self {
            RaopEncryption::Unencrypted => "none",
            RaopEncryption::AuthSetup => "auth_setup",
        }
    }
}

/// A RAOP receiver to send to.
pub struct RaopOutputConfig {
    pub name: String,
    pub ip: String,
    pub port: u16,
    pub encryption: RaopEncryption,
}

/// The node of a RAOP receiver with this name.
pub fn raop_node_name(output_name: &str) -> (r: String)
    ensures
        r@ == RAOP_NODE_PREFIX@ + slug(output_name@),
{
    let s = slugify(output_name);
    joined2(RAOP_NODE_PREFIX, &s)
}

/// The arguments of a RAOP sink.
pub open spec fn raop_args(o: RaopOutputConfig) -> Seq<char> {
    "{ "@ + quoted("raop.ip"@, o.ip@) + numbered("raop.port"@, o.port as int) + quoted(
        "raop.name"@,
        o.name@,
    ) + "raop.transport = \"udp\" "@ + quoted("raop.encryption.type"@, encryption_arg(o.encryption))
        + "audio.format = \"S16\" "@ + "audio.rate = 44100 "@ + "audio.channels = 2 "@ + quoted(
        "node.name"@,
        RAOP_NODE_PREFIX@ + slug(o.name@),
    ) + "}"@
}

/// The arguments of a RAOP sink.
pub fn raop_module_args(output: &RaopOutputConfig) -> (r: String)
    ensures
        r@ == raop_args(*output),
{
    let node_name = raop_node_name(&output.name);
    let mut a = String::from_str("{ ");
    push_quoted(&mut a, "raop.ip", &output.ip);
    push_numbered(&mut a, "raop.port", output.port as u64);
    push_quoted(&mut a, "raop.name", &output.name);
    a.append("raop.transport = \"udp\" ");
    push_quoted(&mut a, "raop.encryption.type", output.encryption.as_pipewire_arg());
    a.append("audio.format = \"S16\" ");
    a.append("audio.rate = 44100 ");
    a.append("audio.channels = 2 ");
    push_quoted(&mut a, "node.name", &node_name);
    a.append("}");
    a
}

/// The text holds this part somewhere.
pub open spec fn holds_part(text: Seq<char>, part: Seq<char>) -> bool {
    exists|i: int|
        0 <= i && i + part.len() <= text.len() && #[trigger] text.subrange(i, i + part.len())
            == part
}

proof fn lemma_holds(text: Seq<char>, more: Seq<char>)
    ensures
        holds_part(text + more, more),
        forall|part: Seq<char>| #[trigger]
            holds_part(text, part) ==> holds_part(text + more, part),
{
    let all = text + more;
    let n = text.len() as int;
    assert(all.subrange(n, n + more.len()) =~= more);
    assert forall|part: Seq<char>| #[trigger] holds_part(text, part) implies holds_part(
        all,
        part,
    ) by {
        let i = choose|i: int|
            0 <= i && i + part.len() <= text.len() && #[trigger] text.subrange(i, i + part.len())
                == part;
        assert(all.subrange(i, i + part.len()) =~= part);
    }
}

/// An RTP source is set up with the address, the port, the latency, the rate and the
/// node name that it is asked for, and told whether to follow one sender alone.
pub proof fn law_an_rtp_source_is_set_up_as_asked(
    node_name: Seq<char>,
    port: int,
    latency_msec: int,
    source_addr: Seq<char>,
    ignore_ssrc: bool,
    rate: int,
)
    ensures
        ({
            let args = rtp_source_args(
                node_name,
                port,
                latency_msec,
                source_addr,
                ignore_ssrc,
                rate,
            );
            &&& holds_part(args, "source.ip"@ + " = \""@ + source_addr + "\" "@)
            &&& holds_part(args, "source.port"@ + " = "@ + decimal(port) + " "@)
            &&& holds_part(args, "sess.latency.msec"@ + " = "@ + decimal(latency_msec) + " "@)
            &&& holds_part(args, "audio.rate"@ + " = "@ + decimal(rate) + " "@)
            &&& holds_part(args, "node.name"@ + " = \""@ + node_name + "\" "@)
            &&& holds_part(args, "audio.format = \"S16LE\" "@)
            &&& holds_part(args, "audio.channels = 2 "@)
            &&& holds_part(args, "stream.props = { media.class = \"Audio/Source\" "@)
            &&& ignore_ssrc ==> holds_part(args, "sess.ignore-ssrc = "@ + "true"@)
            &&& !ignore_ssrc ==> holds_part(args, "sess.ignore-ssrc = "@ + "false"@)
        }),
{
    let t1 = "{ "@ + quoted("source.ip"@, source_addr);
    lemma_holds("{ "@, quoted("source.ip"@, source_addr));
    let t2 = t1 + numbered("source.port"@, port);
    lemma_holds(t1, numbered("source.port"@, port));
    let t3 = t2 + "sess.media = \"audio\" "@;
    lemma_holds(t2, "sess.media = \"audio\" "@);
    let ssrc = "sess.ignore-ssrc = "@ + bool_text(ignore_ssrc);
    let t4 = t3 + "sess.ignore-ssrc = "@ + bool_text(ignore_ssrc);
    assert(t4 =~= t3 + ssrc);
    lemma_holds(t3, ssrc);
    let t5 = t4 + " "@;
    lemma_holds(t4, " "@);
    let t6 = t5 + numbered("sess.latency.msec"@, latency_msec);
    lemma_holds(t5, numbered("sess.latency.msec"@, latency_msec));
    let t7 = t6 + "audio.format = \"S16LE\" "@;
    lemma_holds(t6, "audio.format = \"S16LE\" "@);
    let t8 = t7 + numbered("audio.rate"@, rate);
    lemma_holds(t7, numbered("audio.rate"@, rate));
    let t9 = t8 + "audio.channels = 2 "@;
    lemma_holds(t8, "audio.channels = 2 "@);
    let t10 = t9 + "stream.props = { media.class = \"Audio/Source\" "@;
    lemma_holds(t9, "stream.props = { media.class = \"Audio/Source\" "@);
    let t11 = t10 + quoted("node.name"@, node_name);
    lemma_holds(t10, quoted("node.name"@, node_name));
    let t12 = t11 + "} "@;
    lemma_holds(t11, "} "@);
    lemma_holds(t12, "}"@);
    assert(rtp_source_args(node_name, port, latency_msec, source_addr, ignore_ssrc, rate) == t12
        + "}"@);
}

/// A RAOP sink is set up for the receiver it is asked for: its address, port and name,
/// the encryption it wants, and a node named after it.
pub proof fn law_a_raop_sink_is_set_up_as_asked(o: RaopOutputConfig)
    ensures
        ({
            let args = raop_args(o);
            &&& holds_part(args, "raop.ip"@ + " = \""@ + o.ip@ + "\" "@)
            &&& holds_part(args, "raop.port"@ + " = "@ + decimal(o.port as int) + " "@)
            &&& holds_part(args, "raop.name"@ + " = \""@ + o.name@ + "\" "@)
            &&& holds_part(args, "raop.transport = \"udp\" "@)
            &&& holds_part(args, "audio.rate = 44100 "@)
            &&& holds_part(args, "audio.channels = 2 "@)
            &&& holds_part(
                args,
                "node.name"@ + " = \""@ + (RAOP_NODE_PREFIX@ + slug(o.name@)) + "\" "@,
            )
            &&& o.encryption == RaopEncryption::Unencrypted ==> holds_part(
                args,
                "raop.encryption.type"@ + " = \""@ + "none"@ + "\" "@,
            )
            &&& o.encryption == RaopEncryption::AuthSetup ==> holds_part(
                args,
                "raop.encryption.type"@ + " = \""@ + "auth_setup"@ + "\" "@,
            )
        }),
{
    let t1 = "{ "@ + quoted("raop.ip"@, o.ip@);
    lemma_holds("{ "@, quoted("raop.ip"@, o.ip@));
    let t2 = t1 + numbered("raop.port"@, o.port as int);
    lemma_holds(t1, numbered("raop.port"@, o.port as int));
    let t3 = t2 + quoted("raop.name"@, o.name@);
    lemma_holds(t2, quoted("raop.name"@, o.name@));
    let t4 = t3 + "raop.transport = \"udp\" "@;
    lemma_holds(t3, "raop.transport = \"udp\" "@);
    let t5 = t4 + quoted("raop.encryption.type"@, encryption_arg(o.encryption));
    lemma_holds(t4, quoted("raop.encryption.type"@, encryption_arg(o.encryption)));
    let t6 = t5 + "audio.format = \"S16\" "@;
    lemma_holds(t5, "audio.format = \"S16\" "@);
    let t7 = t6 + "audio.rate = 44100 "@;
    lemma_holds(t6, "audio.rate = 44100 "@);
    let t8 = t7 + "audio.channels = 2 "@;
    lemma_holds(t7, "audio.channels = 2 "@);
    let t9 = t8 + quoted("node.name"@, RAOP_NODE_PREFIX@ + slug(o.name@));
    lemma_holds(t8, quoted("node.name"@, RAOP_NODE_PREFIX@ + slug(o.name@)));
    lemma_holds(t9, "}"@);
    assert(raop_args(o) == t9 + "}"@);
}

} // verus!
