//! The registry of receiver hosts: who asked to be paired, who was approved, and
//! who is connected right now.
//!
//! An agent on a receiver host dials in and says hello. Without a token it becomes
//! a pending request, which a person approves; the token minted then lets it
//! reconnect unattended. The registry only decides: each operation gives back, as
//! [`Effect`]s, what has to be persisted, sent and announced.
//!
//! Levels are 32-bit floats in their bit pattern.

use crate::maps::{lemma_take_next, NameMap};
use crate::names::{session_name, session_name_for, slug, slugify, PWSINK_DEV_PREFIX};
use crate::text::{before_first, before_first_spec, chars_of, decimal, hex_bytes, hex_of, joined2, joined3, lemma_hex_bytes_injective, lemma_hex_bytes_len, opt_view, push_decimal, same, same_opt, starts_with, string_of_range, to_upper, trim, trimmed, upper_all};
use vstd::prelude::*;

verus! {

/// The protocol version spoken here.
pub const PROTOCOL_VERSION: u32 = 1;

/// Seconds between two pings of a connected agent.
pub const PING_INTERVAL_SECS: u64 = 15;

/// Depth of one agent's outgoing queue.
pub const AGENT_MSG_DEPTH: usize = 64;

/// Depth of the queue of announcement ducks.
pub const REMOTE_DUCK_DEPTH: usize = 64;

/// Length of a pairing code.
pub const PAIR_CODE_CHARS: usize = 6;

/// Ramp of an announcement's duck, in milliseconds.
pub const ANNOUNCE_DUCK_RAMP_MS: u64 = 200;

/// Ramp of its release, in milliseconds.
pub const ANNOUNCE_UNDUCK_RAMP_MS: u64 = 400;

/// What a host reports about itself.
#[derive(Debug, Clone, PartialEq)]
pub struct HostState {
    /// Cubic level from 0 to 1, as the bits of a 32-bit float.
    pub volume: Option<u32>,
    pub muted: Option<bool>,
    pub sink_name: Option<String>,
    pub receiving: bool,
    pub ducked: bool,
}

/// The model of a [`HostState`].
pub ghost struct HostStateView {
    pub volume: Option<u32>,
    pub muted: Option<bool>,
    pub sink_name: Option<Seq<char>>,
    pub receiving: bool,
    pub ducked: bool,
}

/// What a host is taken to be in before it has reported anything.
pub open spec fn unreported() -> HostStateView {
    HostStateView { volume: None, muted: None, sink_name: None, receiving: false, ducked: false }
}

/// Whether the bits are those of a number.
pub open spec fn is_number(bits: u32) -> bool {
    (bits & 0x7fff_ffff) <= 0x7f80_0000
}

/// Whether two levels are equal as numbers.
pub open spec fn equal_levels(a: u32, b: u32) -> bool {
    is_number(a) && is_number(b) && (a == b || ((a & 0x7fff_ffff) == 0 && (b & 0x7fff_ffff) == 0))
}

/// Whether two reports say the same.
pub open spec fn same_report(a: HostStateView, b: HostStateView) -> bool {
    &&& match (a.volume, b.volume) {
        (Some(x), Some(y)) => equal_levels(x, y),
        (None, None) => true,
        _ => false,
    }
    &&& a.muted == b.muted
    &&& a.sink_name == b.sink_name
    &&& a.receiving == b.receiving
    &&& a.ducked == b.ducked
}

/// The level, brought into the range from 0 to 1. Negative zero and what is no
/// number stay as they are.
pub open spec fn clamped(bits: u32) -> u32 {
    if !is_number(bits) {
        bits
    } else if bits > 0x8000_0000 {
        0
    } else if 0x3f80_0000 < bits < 0x8000_0000 {
        0x3f80_0000
    } else {
        bits
    }
}

fn clamp_level(bits: u32) -> (r: u32)
    ensures
        r == clamped(bits),
{
    if bits & 0x7fff_ffff > 0x7f80_0000 {
        bits
    } else if bits > 0x8000_0000 {
        0
    } else if bits > 0x3f80_0000 && bits < 0x8000_0000 {
        0x3f80_0000
    } else {
        bits
    }
}

/// A clamped level is a number from 0 to 1, or was no number.
pub proof fn law_levels_are_clamped(bits: u32)
    requires
        is_number(bits),
    ensures
        is_number(clamped(bits)),
        clamped(bits) <= 0x3f80_0000 || clamped(bits) == 0x8000_0000,
        clamped(clamped(bits)) == clamped(bits),
{
    assert(0u32 & 0x7fff_ffff == 0) by (bit_vector);
    assert(0x3f80_0000u32 & 0x7fff_ffff == 0x3f80_0000) by (bit_vector);
}

impl HostState {
    pub open spec fn view(&self) -> HostStateView {
        HostStateView {
            volume: self.volume,
            muted: self.muted,
            sink_name: opt_view(self.sink_name),
            receiving: self.receiving,
            ducked: self.ducked,
        }
    }

    /// The state before the first report.
    pub fn new() -> (r: Self)
        ensures
            r@ == unreported(),
    {
        HostState { volume: None, muted: None, sink_name: None, receiving: false, ducked: false }
    }

    fn copy(&self) -> (r: Self)
        ensures
            r@ == self@,
    {
        HostState {
            volume: self.volume,
            muted: self.muted,
            sink_name: copy_opt(&self.sink_name),
            receiving: self.receiving,
            ducked: self.ducked,
        }
    }

    /// Whether two reports say the same.
    fn says(&self, other: &HostState) -> (r: bool)
        ensures
            r == same_report(self@, other@),
    {
        let volumes = match (self.volume, other.volume) {
            (Some(x), Some(y)) => {
                let ax: u32 = x & 0x7fff_ffff;
                let ay: u32 = y & 0x7fff_ffff;
                ax <= 0x7f80_0000 && ay <= 0x7f80_0000 && (x == y || (ax == 0 && ay == 0))
            },
            (None, None) => true,
            _ => false,
        };
        let mutes = match (self.muted, other.muted) {
            (Some(x), Some(y)) => x == y,
            (None, None) => true,
            _ => false,
        };
        volumes && mutes && same_opt(&self.sink_name, &other.sink_name) && self.receiving
            == other.receiving && self.ducked == other.ducked
    }
}

fn copy_opt(s: &Option<String>) -> (r: Option<String>)
    ensures
        opt_view(r) == opt_view(*s),
{
    match s {
        Some(t) => Some(t.clone()),
        None => None,
    }
}

/// What an agent says.
#[derive(Debug, Clone, PartialEq)]
pub enum AgentMsg {
    Hello {
        protocol: u32,
        agent_version: String,
        machine_id: String,
        hostname: String,
        user: String,
        token: Option<String>,
        pair_code: Option<String>,
    },
    State(HostState),
    ForeignSession { session: String },
    Pong,
}

/// What an agent is told. Levels and depths are the bits of 32-bit floats.
#[derive(Debug, Clone, PartialEq)]
pub enum DaemonMsg {
    PairPending { code: String },
    Paired { token: String },
    Denied { reason: String },
    Welcome { session_name: String, ifname: Option<String>, jitter_ms: Option<u32>, keepalive_secs: u64 },
    Release,
    SetVolume { volume: u32 },
    SetMute { muted: bool },
    Duck { depth: u32, ramp_ms: u64 },
    Unduck { ramp_ms: u64 },
    Ping,
}

/// The model of a [`DaemonMsg`].
pub ghost enum DaemonMsgView {
    PairPending { code: Seq<char> },
    Paired { token: Seq<char> },
    Denied { reason: Seq<char> },
    Welcome {
        session_name: Seq<char>,
        ifname: Option<Seq<char>>,
        jitter_ms: Option<u32>,
        keepalive_secs: u64,
    },
    Release,
    SetVolume { volume: u32 },
    SetMute { muted: bool },
    Duck { depth: u32, ramp_ms: u64 },
    Unduck { ramp_ms: u64 },
    Ping,
}

impl DaemonMsg {
    pub open spec fn view(&self) -> DaemonMsgView {
        match *self {
            DaemonMsg::PairPending { code } => DaemonMsgView::PairPending { code: code@ },
            DaemonMsg::Paired { token } => DaemonMsgView::Paired { token: token@ },
            DaemonMsg::Denied { reason } => DaemonMsgView::Denied { reason: reason@ },
            DaemonMsg::Welcome { session_name, ifname, jitter_ms, keepalive_secs } => {
                DaemonMsgView::Welcome {
                    session_name: session_name@,
                    ifname: opt_view(ifname),
                    jitter_ms,
                    keepalive_secs,
                }
            },
            DaemonMsg::Release => DaemonMsgView::Release,
            DaemonMsg::SetVolume { volume } => DaemonMsgView::SetVolume { volume },
            DaemonMsg::SetMute { muted } => DaemonMsgView::SetMute { muted },
            DaemonMsg::Duck { depth, ramp_ms } => DaemonMsgView::Duck { depth, ramp_ms },
            DaemonMsg::Unduck { ramp_ms } => DaemonMsgView::Unduck { ramp_ms },
            DaemonMsg::Ping => DaemonMsgView::Ping,
        }
    }
}

/// What an operation asks to be done, in this order.
#[derive(Debug, Clone, PartialEq)]
pub enum Effect {
    /// Write the approved hosts to disk.
    Save,
    /// Queue a message on a connection. One that its queue does not take is lost.
    Send { conn: u64, msg: DaemonMsg },
    /// Tell listeners that something changed.
    Notify,
}

/// The model of an [`Effect`].
pub ghost enum EffectView {
    Save,
    Send { conn: u64, msg: DaemonMsgView },
    Notify,
}

impl Effect {
    pub open spec fn view(&self) -> EffectView {
        match *self {
            Effect::Save => EffectView::Save,
            Effect::Send { conn, msg } => EffectView::Send { conn, msg: msg@ },
            Effect::Notify => EffectView::Notify,
        }
    }
}

/// The models of a list of effects.
pub open spec fn effects(s: Seq<Effect>) -> Seq<EffectView> {
    s.map_values(|e: Effect| e@)
}

/// The model of a message to queue and its connection.
pub open spec fn sent(r: Option<(u64, DaemonMsg)>) -> Option<(u64, DaemonMsgView)> {
    match r {
        Some((conn, msg)) => Some((conn, msg@)),
        None => None,
    }
}

/// One approved host.
#[derive(Debug, Clone, PartialEq)]
pub struct PairedAgent {
    /// Machine id and user, with a colon between.
    pub identity: String,
    pub label: String,
    /// The name routing knows the host by.
    pub node_name: String,
    pub token: String,
}

/// The model of a [`PairedAgent`].
pub ghost struct PairedView {
    pub identity: Seq<char>,
    pub label: Seq<char>,
    pub node_name: Seq<char>,
    pub token: Seq<char>,
}

impl PairedAgent {
    pub open spec fn view(&self) -> PairedView {
        PairedView {
            identity: self.identity@,
            label: self.label@,
            node_name: self.node_name@,
            token: self.token@,
        }
    }

    fn copy(&self) -> (r: Self)
        ensures
            r@ == self@,
    {
        PairedAgent {
            identity: self.identity.clone(),
            label: self.label.clone(),
            node_name: self.node_name.clone(),
            token: self.token.clone(),
        }
    }
}

/// A request to be paired; its connection is open and waits.
pub struct Pending {
    pub identity: String,
    pub label: String,
    pub node_name: String,
    pub code: String,
    pub conn: u64,
}

/// The model of a [`Pending`].
pub ghost struct PendingView {
    pub identity: Seq<char>,
    pub label: Seq<char>,
    pub node_name: Seq<char>,
    pub code: Seq<char>,
    pub conn: u64,
}

impl Pending {
    pub open spec fn view(&self) -> PendingView {
        PendingView {
            identity: self.identity@,
            label: self.label@,
            node_name: self.node_name@,
            code: self.code@,
            conn: self.conn,
        }
    }
}

/// An approved host on an open connection.
pub struct Live {
    pub label: String,
    pub state: HostState,
    pub conn: u64,
}

/// The model of a [`Live`].
pub ghost struct LiveView {
    pub label: Seq<char>,
    pub state: HostStateView,
    pub conn: u64,
}

impl Live {
    pub open spec fn view(&self) -> LiveView {
        LiveView { label: self.label@, state: self.state@, conn: self.conn }
    }
}

/// The models of approved hosts.
pub open spec fn paired_views(s: Seq<PairedAgent>) -> Seq<PairedView> {
    s.map_values(|a: PairedAgent| a@)
}

/// The models of pending requests.
pub open spec fn pending_views(s: Seq<Pending>) -> Seq<PendingView> {
    s.map_values(|p: Pending| p@)
}

/// The models of connected hosts.
pub open spec fn live_views(m: Map<Seq<char>, Live>) -> Map<Seq<char>, LiveView> {
    m.map_values(|l: Live| l@)
}

/// The registry.
pub struct Agents {
    pub paired: Vec<PairedAgent>,
    pub pending: Vec<Pending>,
    /// By node name.
    pub live: NameMap<Live>,
}

/// The model of the registry.
#[verifier::ext_equal]
pub ghost struct AgentsView {
    pub paired: Seq<PairedView>,
    pub pending: Seq<PendingView>,
    pub live: Map<Seq<char>, LiveView>,
}

/// The identifying part of a hello.
pub struct HelloClaim<'a> {
    pub protocol: u32,
    pub machine_id: &'a str,
    pub hostname: &'a str,
    pub user: &'a str,
    pub token: Option<&'a str>,
    pub pair_code: Option<&'a str>,
}

/// The model of a [`HelloClaim`].
pub ghost struct ClaimView {
    pub protocol: u32,
    pub machine_id: Seq<char>,
    pub hostname: Seq<char>,
    pub user: Seq<char>,
    pub token: Option<Seq<char>>,
    pub pair_code: Option<Seq<char>>,
}

/// The view of a borrowed text that may be missing.
pub open spec fn str_view(s: Option<&str>) -> Option<Seq<char>> {
    match s {
        Some(t) => Some(t@),
        None => None,
    }
}

impl<'a> HelloClaim<'a> {
    pub open spec fn view(&self) -> ClaimView {
        ClaimView {
            protocol: self.protocol,
            machine_id: self.machine_id@,
            hostname: self.hostname@,
            user: self.user@,
            token: str_view(self.token),
            pair_code: str_view(self.pair_code),
        }
    }
}

/// What a hello comes to.
pub enum HelloOutcome {
    /// Approved, under this node name.
    Welcome { node_name: String, label: String },
    /// Waits for approval.
    Pending,
    Denied(String),
}

/// The model of a [`HelloOutcome`].
pub ghost enum OutcomeView {
    Welcome { node_name: Seq<char>, label: Seq<char> },
    Pending,
    Denied(Seq<char>),
}

impl HelloOutcome {
    pub open spec fn view(&self) -> OutcomeView {
        match *self {
            HelloOutcome::Welcome { node_name, label } => OutcomeView::Welcome {
                node_name: node_name@,
                label: label@,
            },
            HelloOutcome::Pending => OutcomeView::Pending,
            HelloOutcome::Denied(reason) => OutcomeView::Denied(reason@),
        }
    }
}

// ---- codes, names and labels -------------------------------------------------

/// Whether `c` may stand in a pairing code.
pub open spec fn code_char(c: char) -> bool {
    ('0' <= c <= '9') || ('A' <= c <= 'F')
}

/// The pairing code that was offered, where it is one.
pub open spec fn pair_code(offered: Option<Seq<char>>) -> Option<Seq<char>> {
    match offered {
        Some(text) => {
            let code = trimmed(text);
            if code.len() == PAIR_CODE_CHARS && forall|i: int|
                0 <= i < code.len() ==> code_char(#[trigger] code[i]) {
                Some(code)
            } else {
                None
            }
        },
        None => None,
    }
}

/// The offered pairing code, where it has exactly the shape of one made here.
pub fn valid_pair_code(offered: Option<&str>) -> (r: Option<String>)
    ensures
        opt_view(r) == pair_code(str_view(offered)),
{
    let text = match offered {
        Some(text) => text,
        None => {
            return None;
        },
    };
    let code = trim(text);
    let chars = chars_of(&code);
    if chars.len() != PAIR_CODE_CHARS {
        return None;
    }
    let mut i: usize = 0;
    while i < chars.len()
        invariant
            i <= chars@.len(),
            chars@ == code@,
            code@ == trimmed(text@),
            str_view(offered) == Some(text@),
            forall|j: int| 0 <= j < i ==> code_char(#[trigger] code@[j]),
        decreases chars.len() - i,
    {
        let c = chars[i];
        if !((c >= '0' && c <= '9') || (c >= 'A' && c <= 'F')) {
            assert(!code_char(code@[i as int]));
            return None;
        }
        i += 1;
    }
    Some(code)
}

/// `<machine id>:<user>`.
pub open spec fn identity_of(machine_id: Seq<char>, user: Seq<char>) -> Seq<char> {
    machine_id + ":"@ + user
}

/// Who an agent is: its machine and its user, so that a renamed host stays paired.
pub fn identity_for(machine_id: &str, user: &str) -> (r: String)
    ensures
        r@ == identity_of(machine_id@, user@),
{
    joined3(machine_id, ":", user)
}

/// `<host> (<user>)`.
pub open spec fn label_of(hostname: Seq<char>, user: Seq<char>) -> Seq<char> {
    hostname + " ("@ + user + ")"@
}

/// How a host is shown.
pub fn label_for(hostname: &str, user: &str) -> (r: String)
    ensures
        r@ == label_of(hostname@, user@),
{
    let open = joined3(hostname, " (", user);
    joined2(&open, ")")
}

/// The node name made from host and user.
pub open spec fn base_name(hostname: Seq<char>, user: Seq<char>) -> Seq<char> {
    PWSINK_DEV_PREFIX@ + slug(hostname) + "_"@ + slug(user)
}

/// The first approved host with this identity.
pub open spec fn paired_of(p: Seq<PairedView>, identity: Seq<char>) -> Option<PairedView>
    decreases p.len(),
{
    if p.len() == 0 {
        None
    } else if p[0].identity == identity {
        Some(p[0])
    } else {
        paired_of(p.skip(1), identity)
    }
}

/// Whether a host other than `identity` has the node name already.
pub open spec fn taken(s: AgentsView, identity: Seq<char>, name: Seq<char>) -> bool {
    ||| exists|i: int| 0 <= i < s.paired.len() && #[trigger] s.paired[i].node_name == name
    ||| exists|i: int|
        0 <= i < s.pending.len() && (#[trigger] s.pending[i]).identity != identity
            && s.pending[i].node_name == name
}

/// The node name with the first `n` characters of the machine behind it.
pub open spec fn longer_name(base: Seq<char>, machine: Seq<char>, n: int) -> Seq<char> {
    base + "_"@ + machine.take(n)
}

/// Whether `n` characters of the machine tell the host apart.
pub open spec fn tells_apart(
    s: AgentsView,
    identity: Seq<char>,
    base: Seq<char>,
    machine: Seq<char>,
    n: int,
) -> bool {
    0 < n <= machine.len() && !taken(s, identity, longer_name(base, machine, n))
}

/// The machine's part of a longer node name.
pub open spec fn machine_part(identity: Seq<char>) -> Seq<char> {
    slug(before_first_spec(identity, ":"@))
}

/// Whether neither host and user nor the machine id gives a name of its own.
pub open spec fn exhausted(
    s: AgentsView,
    identity: Seq<char>,
    hostname: Seq<char>,
    user: Seq<char>,
) -> bool {
    let base = base_name(hostname, user);
    let machine = machine_part(identity);
    &&& paired_of(s.paired, identity) is None
    &&& taken(s, identity, base)
    &&& !tells_apart(s, identity, base, machine, 6)
    &&& !tells_apart(s, identity, base, machine, 12)
    &&& !tells_apart(s, identity, base, machine, machine.len() as int)
}

/// The node name for an identity. An approved host keeps the one it has; else host
/// and user make it; where another host has that, the machine id is added as far
/// as needed, and at last something random.
pub open spec fn name_for(
    s: AgentsView,
    identity: Seq<char>,
    hostname: Seq<char>,
    user: Seq<char>,
    suffix: Seq<u8>,
) -> Seq<char> {
    let base = base_name(hostname, user);
    let machine = machine_part(identity);
    match paired_of(s.paired, identity) {
        Some(agent) => agent.node_name,
        None => if !taken(s, identity, base) {
            base
        } else if tells_apart(s, identity, base, machine, 6) {
            longer_name(base, machine, 6)
        } else if tells_apart(s, identity, base, machine, 12) {
            longer_name(base, machine, 12)
        } else if tells_apart(s, identity, base, machine, machine.len() as int) {
            longer_name(base, machine, machine.len() as int)
        } else {
            base + "_"@ + hex_bytes(suffix)
        },
    }
}

/// A host that is not approved yet gets a name that no other host has, as long as
/// names of its own are not exhausted.
pub proof fn law_fresh_names_are_free(
    s: AgentsView,
    identity: Seq<char>,
    hostname: Seq<char>,
    user: Seq<char>,
    suffix: Seq<u8>,
)
    requires
        paired_of(s.paired, identity) is None,
        !exhausted(s, identity, hostname, user),
    ensures
        !taken(s, identity, name_for(s, identity, hostname, user, suffix)),
{
}

// ---- the registry -----------------------------------------------------------

/// The host that presents a token of its own.
pub open spec fn holder_of(p: Seq<PairedView>, identity: Seq<char>, token: Seq<char>) -> Option<PairedView>
    decreases p.len(),
{
    if p.len() == 0 {
        None
    } else if p[0].identity == identity && p[0].token == token {
        Some(p[0])
    } else {
        holder_of(p.skip(1), identity, token)
    }
}

/// The same hosts, with the label of the first one of this identity renewed.
pub open spec fn relabelled(p: Seq<PairedView>, identity: Seq<char>, label: Seq<char>) -> Seq<PairedView>
    decreases p.len(),
{
    if p.len() == 0 {
        p
    } else if p[0].identity == identity {
        seq![PairedView { label, ..p[0] }] + p.skip(1)
    } else {
        seq![p[0]] + relabelled(p.skip(1), identity, label)
    }
}

/// The first pending request of this identity.
pub open spec fn pending_of(p: Seq<PendingView>, identity: Seq<char>) -> Option<PendingView>
    decreases p.len(),
{
    if p.len() == 0 {
        None
    } else if p[0].identity == identity {
        Some(p[0])
    } else {
        pending_of(p.skip(1), identity)
    }
}

/// The pending requests of every other identity.
pub open spec fn other_pending(p: Seq<PendingView>, identity: Seq<char>) -> Seq<PendingView>
    decreases p.len(),
{
    if p.len() == 0 {
        p
    } else if p.last().identity == identity {
        other_pending(p.drop_last(), identity)
    } else {
        other_pending(p.drop_last(), identity).push(p.last())
    }
}

/// The approved hosts of every other identity.
pub open spec fn other_paired(p: Seq<PairedView>, identity: Seq<char>) -> Seq<PairedView>
    decreases p.len(),
{
    if p.len() == 0 {
        p
    } else if p.last().identity == identity {
        other_paired(p.drop_last(), identity)
    } else {
        other_paired(p.drop_last(), identity).push(p.last())
    }
}

/// The code a request is shown with: the agent's own where it offers one, else
/// the one it was shown with before, else a new one; none where there is no
/// randomness to make one from.
pub open spec fn code_for(s: AgentsView, c: ClaimView, minted: Seq<u8>) -> Option<Seq<char>> {
    match pair_code(c.pair_code) {
        Some(code) => Some(code),
        None => match pending_of(s.pending, identity_of(c.machine_id, c.user)) {
            Some(before) => Some(before.code),
            None => if minted.len() == 0 {
                None
            } else {
                Some(upper_all(hex_bytes(minted)))
            },
        },
    }
}

/// The denial of another protocol version.
pub open spec fn wrong_protocol(protocol: u32) -> Seq<char> {
    "protocol "@ + decimal(protocol as int) + " is not "@ + decimal(PROTOCOL_VERSION as int)
        + "; update the agent or the add-on"@
}

/// A hello: the registry after it, what it comes to, and what is to be done.
pub open spec fn hello_spec(
    s: AgentsView,
    c: ClaimView,
    conn: u64,
    minted: Seq<u8>,
    suffix: Seq<u8>,
) -> (AgentsView, OutcomeView, Seq<EffectView>) {
    let identity = identity_of(c.machine_id, c.user);
    let label = label_of(c.hostname, c.user);
    let none = Seq::<EffectView>::empty();
    if c.protocol != PROTOCOL_VERSION {
        (s, OutcomeView::Denied(wrong_protocol(c.protocol)), none)
    } else if c.token is Some {
        match holder_of(s.paired, identity, c.token->0) {
            None => (
                s,
                OutcomeView::Denied("token not recognised; remove the agent's config and pair again"@),
                none,
            ),
            Some(agent) => {
                let live = LiveView { label, state: unreported(), conn };
                let outcome = OutcomeView::Welcome { node_name: agent.node_name, label };
                if agent.label == label {
                    (
                        AgentsView { live: s.live.insert(agent.node_name, live), ..s },
                        outcome,
                        seq![EffectView::Notify],
                    )
                } else {
                    (
                        AgentsView {
                            paired: relabelled(s.paired, identity, label),
                            live: s.live.insert(agent.node_name, live),
                            ..s
                        },
                        outcome,
                        seq![EffectView::Save, EffectView::Notify],
                    )
                }
            },
        }
    } else {
        match code_for(s, c, minted) {
            None => (s, OutcomeView::Denied("daemon could not generate a pairing code"@), none),
            Some(code) => {
                let node_name = name_for(s, identity, c.hostname, c.user, suffix);
                (
                    AgentsView {
                        pending: other_pending(s.pending, identity).push(
                            PendingView { identity, label, node_name, code, conn },
                        ),
                        ..s
                    },
                    OutcomeView::Pending,
                    seq![
                        EffectView::Send { conn, msg: DaemonMsgView::PairPending { code } },
                        EffectView::Notify,
                    ],
                )
            },
        }
    }
}

proof fn lemma_paired_of_skip(p: Seq<PairedView>, identity: Seq<char>, i: int)
    requires
        0 <= i <= p.len(),
        forall|j: int| 0 <= j < i ==> (#[trigger] p[j]).identity != identity,
    ensures
        paired_of(p, identity) == paired_of(p.skip(i), identity),
    decreases i,
{
    if i == 0 {
        assert(p.skip(0) =~= p);
    } else {
        assert forall|j: int| 0 <= j < i - 1 implies (#[trigger] p.skip(1)[j]).identity
            != identity by {
            assert(p.skip(1)[j] == p[j + 1]);
        }
        assert(p[0].identity != identity);
        lemma_paired_of_skip(p.skip(1), identity, i - 1);
        assert(p.skip(1).skip(i - 1) =~= p.skip(i));
    }
}

proof fn lemma_pending_of_skip(p: Seq<PendingView>, identity: Seq<char>, i: int)
    requires
        0 <= i <= p.len(),
        forall|j: int| 0 <= j < i ==> (#[trigger] p[j]).identity != identity,
    ensures
        pending_of(p, identity) == pending_of(p.skip(i), identity),
    decreases i,
{
    if i == 0 {
        assert(p.skip(0) =~= p);
    } else {
        assert forall|j: int| 0 <= j < i - 1 implies (#[trigger] p.skip(1)[j]).identity
            != identity by {
            assert(p.skip(1)[j] == p[j + 1]);
        }
        assert(p[0].identity != identity);
        lemma_pending_of_skip(p.skip(1), identity, i - 1);
        assert(p.skip(1).skip(i - 1) =~= p.skip(i));
    }
}

proof fn lemma_holder_of_skip(p: Seq<PairedView>, identity: Seq<char>, token: Seq<char>, i: int)
    requires
        0 <= i <= p.len(),
        forall|j: int|
            0 <= j < i ==> !((#[trigger] p[j]).identity == identity && p[j].token == token),
    ensures
        holder_of(p, identity, token) == holder_of(p.skip(i), identity, token),
    decreases i,
{
    if i == 0 {
        assert(p.skip(0) =~= p);
    } else {
        assert forall|j: int| 0 <= j < i - 1 implies !((#[trigger] p.skip(1)[j]).identity
            == identity && p.skip(1)[j].token == token) by {
            assert(p.skip(1)[j] == p[j + 1]);
        }
        assert(!(p[0].identity == identity && p[0].token == token));
        lemma_holder_of_skip(p.skip(1), identity, token, i - 1);
        assert(p.skip(1).skip(i - 1) =~= p.skip(i));
    }
}

proof fn lemma_relabelled_at(p: Seq<PairedView>, identity: Seq<char>, label: Seq<char>, i: int)
    requires
        0 <= i < p.len(),
        p[i].identity == identity,
        forall|j: int| 0 <= j < i ==> (#[trigger] p[j]).identity != identity,
    ensures
        relabelled(p, identity, label) == p.update(i, PairedView { label, ..p[i] }),
    decreases i,
{
    if i == 0 {
        assert(relabelled(p, identity, label) =~= p.update(0, PairedView { label, ..p[0] }));
    } else {
        assert forall|j: int| 0 <= j < i - 1 implies (#[trigger] p.skip(1)[j]).identity
            != identity by {
            assert(p.skip(1)[j] == p[j + 1]);
        }
        assert(p[0].identity != identity);
        lemma_relabelled_at(p.skip(1), identity, label, i - 1);
        assert(relabelled(p, identity, label) =~= p.update(i, PairedView { label, ..p[i] }));
    }
}

proof fn lemma_other_pending_next(p: Seq<PendingView>, identity: Seq<char>, i: int)
    requires
        0 <= i < p.len(),
    ensures
        other_pending(p.take(i + 1), identity) == if p[i].identity == identity {
            other_pending(p.take(i), identity)
        } else {
            other_pending(p.take(i), identity).push(p[i])
        },
{
    assert(p.take(i + 1).drop_last() =~= p.take(i));
}

proof fn lemma_other_paired_next(p: Seq<PairedView>, identity: Seq<char>, i: int)
    requires
        0 <= i < p.len(),
    ensures
        other_paired(p.take(i + 1), identity) == if p[i].identity == identity {
            other_paired(p.take(i), identity)
        } else {
            other_paired(p.take(i), identity).push(p[i])
        },
{
    assert(p.take(i + 1).drop_last() =~= p.take(i));
}

/// Approving a request: the registry after it, the host that was approved or why
/// not, and what is to be done.
pub open spec fn approve_spec(s: AgentsView, identity: Seq<char>, token: Seq<u8>) -> (
    AgentsView,
    Result<PairedView, Seq<char>>,
    Seq<EffectView>,
) {
    match pending_of(s.pending, identity) {
        None => (s, Err("no pending pair request for that identity"@), Seq::empty()),
        Some(request) => {
            let rest = AgentsView { pending: without_first(s.pending, identity), ..s };
            if token.len() == 0 {
                (rest, Err("daemon could not generate a token"@), Seq::empty())
            } else {
                let agent = PairedView {
                    identity,
                    label: request.label,
                    node_name: request.node_name,
                    token: hex_bytes(token),
                };
                (
                    AgentsView { paired: other_paired(s.paired, identity).push(agent), ..rest },
                    Ok(agent),
                    seq![
                        EffectView::Save,
                        EffectView::Send {
                            conn: request.conn,
                            msg: DaemonMsgView::Paired { token: agent.token },
                        },
                        EffectView::Notify,
                    ],
                )
            }
        },
    }
}

/// The requests without the first one of this identity.
pub open spec fn without_first(p: Seq<PendingView>, identity: Seq<char>) -> Seq<PendingView>
    decreases p.len(),
{
    if p.len() == 0 {
        p
    } else if p[0].identity == identity {
        p.skip(1)
    } else {
        seq![p[0]] + without_first(p.skip(1), identity)
    }
}

proof fn lemma_without_first_at(p: Seq<PendingView>, identity: Seq<char>, i: int)
    requires
        0 <= i < p.len(),
        p[i].identity == identity,
        forall|j: int| 0 <= j < i ==> (#[trigger] p[j]).identity != identity,
    ensures
        without_first(p, identity) == p.remove(i),
    decreases i,
{
    if i == 0 {
        assert(p.skip(1) =~= p.remove(0));
    } else {
        assert forall|j: int| 0 <= j < i - 1 implies (#[trigger] p.skip(1)[j]).identity
            != identity by {
            assert(p.skip(1)[j] == p[j + 1]);
        }
        assert(p[0].identity != identity);
        lemma_without_first_at(p.skip(1), identity, i - 1);
        assert(without_first(p, identity) =~= p.remove(i));
    }
}

/// Revoking an approval: the registry after it, whether there was one, and what is
/// to be done.
pub open spec fn unpair_spec(s: AgentsView, identity: Seq<char>) -> (
    AgentsView,
    Result<(), Seq<char>>,
    Seq<EffectView>,
) {
    match paired_of(s.paired, identity) {
        None => (s, Err("no such paired agent"@), Seq::empty()),
        Some(agent) => (
            AgentsView {
                paired: other_paired(s.paired, identity),
                live: s.live.remove(agent.node_name),
                ..s
            },
            Ok(()),
            if s.live.contains_key(agent.node_name) {
                let conn = s.live[agent.node_name].conn;
                seq![
                    EffectView::Save,
                    EffectView::Send { conn, msg: DaemonMsgView::Release },
                    EffectView::Send {
                        conn,
                        msg: DaemonMsgView::Denied { reason: "pairing was removed"@ },
                    },
                    EffectView::Notify,
                ]
            } else {
                seq![EffectView::Save, EffectView::Notify]
            },
        ),
    }
}

/// The model of a result with a message.
pub open spec fn told<T>(r: Result<T, String>) -> Result<T, Seq<char>> {
    match r {
        Ok(v) => Ok(v),
        Err(e) => Err(e@),
    }
}

/// A report of a host's state: it counts where the host is connected and the
/// report differs from the last.
pub open spec fn report_spec(s: AgentsView, node_name: Seq<char>, state: HostStateView) -> (
    AgentsView,
    bool,
) {
    if s.live.contains_key(node_name) && !same_report(s.live[node_name].state, state) {
        (
            AgentsView {
                live: s.live.insert(node_name, LiveView { state, ..s.live[node_name] }),
                ..s
            },
            true,
        )
    } else {
        (s, false)
    }
}

/// The message that goes to a host, where it is connected.
pub open spec fn command(s: AgentsView, node_name: Seq<char>, msg: DaemonMsgView) -> Option<
    (u64, DaemonMsgView),
> {
    if s.live.contains_key(node_name) {
        Some((s.live[node_name].conn, msg))
    } else {
        None
    }
}

/// The first approved host of this name, else the first pending one.
pub open spec fn identity_at(s: AgentsView, node_name: Seq<char>) -> Option<Seq<char>> {
    match paired_named(s.paired, node_name) {
        Some(a) => Some(a.identity),
        None => match pending_named(s.pending, node_name) {
            Some(p) => Some(p.identity),
            None => None,
        },
    }
}

/// The first approved host with this node name.
pub open spec fn paired_named(p: Seq<PairedView>, node_name: Seq<char>) -> Option<PairedView>
    decreases p.len(),
{
    if p.len() == 0 {
        None
    } else if p[0].node_name == node_name {
        Some(p[0])
    } else {
        paired_named(p.skip(1), node_name)
    }
}

/// The first pending request with this node name.
pub open spec fn pending_named(p: Seq<PendingView>, node_name: Seq<char>) -> Option<PendingView>
    decreases p.len(),
{
    if p.len() == 0 {
        None
    } else if p[0].node_name == node_name {
        Some(p[0])
    } else {
        pending_named(p.skip(1), node_name)
    }
}

/// One row for diagnostics.
#[derive(Debug, Clone)]
pub struct AgentInfo {
    pub identity: String,
    pub label: String,
    pub node_name: String,
    pub paired: bool,
    pub connected: bool,
    /// Only of a pending request.
    pub code: Option<String>,
    pub state: Option<HostState>,
}

/// The model of an [`AgentInfo`].
pub ghost struct InfoView {
    pub identity: Seq<char>,
    pub label: Seq<char>,
    pub node_name: Seq<char>,
    pub paired: bool,
    pub connected: bool,
    pub code: Option<Seq<char>>,
    pub state: Option<HostStateView>,
}

impl AgentInfo {
    pub open spec fn view(&self) -> InfoView {
        InfoView {
            identity: self.identity@,
            label: self.label@,
            node_name: self.node_name@,
            paired: self.paired,
            connected: self.connected,
            code: opt_view(self.code),
            state: match self.state {
                Some(state) => Some(state@),
                None => None,
            },
        }
    }
}

/// One host in the list of outputs.
pub struct HostRow {
    pub node_name: String,
    pub label: String,
    /// An agent is on the connection right now.
    pub connected: bool,
    pub paired: bool,
    /// Only while the host waits to be paired.
    pub pair_code: Option<String>,
}

/// The model of a [`HostRow`].
pub ghost struct RowView {
    pub node_name: Seq<char>,
    pub label: Seq<char>,
    pub connected: bool,
    pub paired: bool,
    pub pair_code: Option<Seq<char>>,
}

impl HostRow {
    pub open spec fn view(&self) -> RowView {
        RowView {
            node_name: self.node_name@,
            label: self.label@,
            connected: self.connected,
            paired: self.paired,
            pair_code: opt_view(self.pair_code),
        }
    }
}

/// The row of an approved host; its connection's label is the current one.
pub open spec fn paired_row(s: AgentsView, a: PairedView) -> RowView {
    RowView {
        node_name: a.node_name,
        label: if s.live.contains_key(a.node_name) {
            s.live[a.node_name].label
        } else {
            a.label
        },
        connected: s.live.contains_key(a.node_name),
        paired: true,
        pair_code: None,
    }
}

/// The row of a pending request.
pub open spec fn pending_row(p: PendingView) -> RowView {
    RowView {
        node_name: p.node_name,
        label: p.label,
        connected: true,
        paired: false,
        pair_code: Some(p.code),
    }
}

/// The rows of all hosts.
pub open spec fn hosts_spec(s: AgentsView) -> Seq<RowView> {
    s.paired.map_values(|a: PairedView| paired_row(s, a)) + s.pending.map_values(
        |p: PendingView| pending_row(p),
    )
}

/// The connected approved hosts and their labels.
pub open spec fn connected(s: AgentsView) -> Map<Seq<char>, Seq<char>> {
    Map::new(
        |n: Seq<char>|
            s.live.contains_key(n) && exists|j: int|
                0 <= j < s.paired.len() && (#[trigger] s.paired[j]).node_name == n,
        |n: Seq<char>| s.live[n].label,
    )
}

/// The levels that connected approved hosts have reported.
pub open spec fn reported_volumes(s: AgentsView) -> Map<Seq<char>, u32> {
    Map::new(
        |n: Seq<char>| connected(s).contains_key(n) && s.live[n].state.volume is Some,
        |n: Seq<char>| s.live[n].state.volume->0,
    )
}

/// The mutes that connected approved hosts have reported.
pub open spec fn reported_mutes(s: AgentsView) -> Map<Seq<char>, bool> {
    Map::new(
        |n: Seq<char>| connected(s).contains_key(n) && s.live[n].state.muted is Some,
        |n: Seq<char>| s.live[n].state.muted->0,
    )
}

/// The diagnostic row of an approved host.
pub open spec fn paired_info(s: AgentsView, a: PairedView) -> InfoView {
    InfoView {
        identity: a.identity,
        label: a.label,
        node_name: a.node_name,
        paired: true,
        connected: s.live.contains_key(a.node_name),
        code: None,
        state: if s.live.contains_key(a.node_name) {
            Some(s.live[a.node_name].state)
        } else {
            None
        },
    }
}

/// The diagnostic row of a pending request.
pub open spec fn pending_info(p: PendingView) -> InfoView {
    InfoView {
        identity: p.identity,
        label: p.label,
        node_name: p.node_name,
        paired: false,
        connected: true,
        code: Some(p.code),
        state: None,
    }
}

/// The diagnostic rows.
pub open spec fn snapshot_spec(s: AgentsView) -> Seq<InfoView> {
    s.paired.map_values(|a: PairedView| paired_info(s, a)) + s.pending.map_values(
        |p: PendingView| pending_info(p),
    )
}

/// What tells a host which session to receive and how much to buffer.
pub open spec fn welcome_spec(node_name: Seq<char>, jitter_ms: u16) -> DaemonMsgView {
    DaemonMsgView::Welcome {
        session_name: session_name(node_name),
        ifname: None,
        jitter_ms: Some(jitter_ms as u32),
        keepalive_secs: PING_INTERVAL_SECS,
    }
}

/// The welcome of a host: the session made for it, and the playout delay set here.
pub fn welcome(node_name: &str, jitter_ms: u16) -> (r: DaemonMsg)
    ensures
        r@ == welcome_spec(node_name@, jitter_ms),
{
    DaemonMsg::Welcome {
        session_name: session_name_for(node_name),
        ifname: None,
        jitter_ms: Some(jitter_ms as u32),
        keepalive_secs: PING_INTERVAL_SECS,
    }
}

impl Agents {
    pub open spec fn view(&self) -> AgentsView {
        AgentsView {
            paired: paired_views(self.paired@),
            pending: pending_views(self.pending@),
            live: live_views(self.live@),
        }
    }

    /// A registry with these approved hosts, none of them connected.
    pub fn new(paired: Vec<PairedAgent>) -> (r: Self)
        ensures
            r@ == (AgentsView {
                paired: paired_views(paired@),
                pending: Seq::empty(),
                live: Map::empty(),
            }),
    {
        let r = Agents { paired, pending: Vec::new(), live: NameMap::new() };
        proof {
            assert(r@.pending =~= Seq::<PendingView>::empty());
            assert(r@.live =~= Map::<Seq<char>, LiveView>::empty());
        }
        r
    }

    /// The node name made from host and user, so that two sessions of one machine
    /// do not share one.
    pub fn node_name_for(hostname: &str, user: &str) -> (r: String)
        ensures
            r@ == base_name(hostname@, user@),
    {
        let host = slugify(hostname);
        let name = joined3(PWSINK_DEV_PREFIX, &host, "_");
        let user = slugify(user);
        joined2(&name, &user)
    }

    fn paired_index(&self, identity: &str) -> (r: Option<usize>)
        ensures
            match r {
                Some(i) => i < self.paired@.len() && self.paired@[i as int].identity@ == identity@
                    && (forall|j: int|
                    0 <= j < i ==> (#[trigger] self.paired@[j]).identity@ != identity@)
                    && paired_of(self@.paired, identity@) == Some(self@.paired[i as int]),
                None => paired_of(self@.paired, identity@) is None && forall|j: int|
                    0 <= j < self.paired@.len() ==> (#[trigger] self.paired@[j]).identity@
                        != identity@,
            },
    {
        let mut i: usize = 0;
        while i < self.paired.len()
            invariant
                i <= self.paired@.len(),
                forall|j: int| 0 <= j < i ==> (#[trigger] self.paired@[j]).identity@ != identity@,
            decreases self.paired.len() - i,
        {
            if same(&self.paired[i].identity, identity) {
                proof {
                    lemma_paired_of_skip(self@.paired, identity@, i as int);
                }
                return Some(i);
            }
            i += 1;
        }
        proof {
            lemma_paired_of_skip(self@.paired, identity@, i as int);
        }
        None
    }

    fn pending_index(&self, identity: &str) -> (r: Option<usize>)
        ensures
            match r {
                Some(i) => i < self.pending@.len() && self.pending@[i as int].identity@ == identity@
                    && (forall|j: int|
                    0 <= j < i ==> (#[trigger] self.pending@[j]).identity@ != identity@)
                    && pending_of(self@.pending, identity@) == Some(self@.pending[i as int]),
                None => pending_of(self@.pending, identity@) is None && forall|j: int|
                    0 <= j < self.pending@.len() ==> (#[trigger] self.pending@[j]).identity@
                        != identity@,
            },
    {
        let mut i: usize = 0;
        while i < self.pending.len()
            invariant
                i <= self.pending@.len(),
                forall|j: int| 0 <= j < i ==> (#[trigger] self.pending@[j]).identity@ != identity@,
            decreases self.pending.len() - i,
        {
            if same(&self.pending[i].identity, identity) {
                proof {
                    lemma_pending_of_skip(self@.pending, identity@, i as int);
                }
                return Some(i);
            }
            i += 1;
        }
        proof {
            lemma_pending_of_skip(self@.pending, identity@, i as int);
        }
        None
    }

    fn holder_index(&self, identity: &str, token: &str) -> (r: Option<usize>)
        ensures
            match r {
                Some(i) => i < self.paired@.len() && self.paired@[i as int].identity@ == identity@
                    && holder_of(self@.paired, identity@, token@) == Some(self@.paired[i as int]),
                None => holder_of(self@.paired, identity@, token@) is None,
            },
    {
        let mut i: usize = 0;
        while i < self.paired.len()
            invariant
                i <= self.paired@.len(),
                forall|j: int|
                    0 <= j < i ==> !((#[trigger] self.paired@[j]).identity@ == identity@
                        && self.paired@[j].token@ == token@),
            decreases self.paired.len() - i,
        {
            if same(&self.paired[i].token, token) && same(&self.paired[i].identity, identity) {
                proof {
                    lemma_holder_of_skip(self@.paired, identity@, token@, i as int);
                }
                return Some(i);
            }
            i += 1;
        }
        proof {
            lemma_holder_of_skip(self@.paired, identity@, token@, i as int);
        }
        None
    }

    fn is_taken(&self, identity: &str, name: &str) -> (r: bool)
        ensures
            r == taken(self@, identity@, name@),
    {
        let mut i: usize = 0;
        while i < self.paired.len()
            invariant
                i <= self.paired@.len(),
                forall|j: int| 0 <= j < i ==> (#[trigger] self@.paired[j]).node_name != name@,
            decreases self.paired.len() - i,
        {
            if same(&self.paired[i].node_name, name) {
                assert(self@.paired[i as int].node_name == name@);
                return true;
            }
            i += 1;
        }
        let mut k: usize = 0;
        while k < self.pending.len()
            invariant
                k <= self.pending@.len(),
                forall|j: int|
                    0 <= j < self.paired@.len() ==> (#[trigger] self@.paired[j]).node_name != name@,
                forall|j: int|
                    0 <= j < k ==> !((#[trigger] self@.pending[j]).identity != identity@
                        && self@.pending[j].node_name == name@),
            decreases self.pending.len() - k,
        {
            if !same(&self.pending[k].identity, identity) && same(&self.pending[k].node_name, name) {
                assert(self@.pending[k as int].node_name == name@);
                return true;
            }
            k += 1;
        }
        false
    }

    fn longer(&self, identity: &str, base: &str, machine: &Vec<char>, n: usize) -> (r: Option<String>)
        ensures
            match r {
                Some(name) => tells_apart(self@, identity@, base@, machine@, n as int) && name@
                    == longer_name(base@, machine@, n as int),
                None => !tells_apart(self@, identity@, base@, machine@, n as int),
            },
    {
        if n == 0 || n > machine.len() {
            return None;
        }
        let part = string_of_range(machine, 0, n);
        let name = joined3(base, "_", &part);
        assert(part@ =~= machine@.take(n as int));
        if self.is_taken(identity, &name) {
            None
        } else {
            Some(name)
        }
    }

    /// The node name for an identity, from its host, its user and, where nothing
    /// else tells it apart, three random bytes.
    fn node_name_for_identity(
        &self,
        identity: &str,
        hostname: &str,
        user: &str,
        suffix: &[u8],
    ) -> (r: String)
        ensures
            r@ == name_for(self@, identity@, hostname@, user@, suffix@),
    {
        match self.paired_index(identity) {
            Some(i) => {
                return self.paired[i].node_name.clone();
            },
            None => {},
        }
        let base = Self::node_name_for(hostname, user);
        if !self.is_taken(identity, &base) {
            return base;
        }
        let machine = chars_of(&slugify(&before_first(identity, ":")));
        match self.longer(identity, &base, &machine, 6) {
            Some(name) => {
                return name;
            },
            None => {},
        }
        match self.longer(identity, &base, &machine, 12) {
            Some(name) => {
                return name;
            },
            None => {},
        }
        match self.longer(identity, &base, &machine, machine.len()) {
            Some(name) => {
                return name;
            },
            None => {},
        }
        let random = hex_of(suffix);
        joined3(&base, "_", &random)
    }

    fn forget_pending(&mut self, identity: &str)
        ensures
            final(self)@ == (AgentsView {
                pending: other_pending(old(self)@.pending, identity@),
                ..old(self)@
            }),
    {
        let ghost before = self@;
        let ghost all = before.pending;
        let ghost mut j: int = 0;
        let mut i: usize = 0;
        assert(all.take(0) =~= Seq::empty());
        while i < self.pending.len()
            invariant
                0 <= j <= all.len(),
                i <= self.pending@.len(),
                self@ == (AgentsView { pending: self@.pending, ..before }),
                self@.pending.take(i as int) == other_pending(all.take(j), identity@),
                self@.pending.skip(i as int) == all.skip(j),
            decreases self.pending.len() - i,
        {
            let ghost now = self@.pending;
            proof {
                assert(now.skip(i as int).len() == all.skip(j).len());
                lemma_other_pending_next(all, identity@, j);
                assert(now[i as int] == now.skip(i as int)[0]);
                assert(all[j] == all.skip(j)[0]);
            }
            if same(&self.pending[i].identity, identity) {
                self.pending.remove(i);
                proof {
                    assert(self@.pending =~= now.remove(i as int));
                    assert(self@.pending.take(i as int) =~= now.take(i as int));
                    assert(self@.pending.skip(i as int) =~= now.skip(i as int).skip(1));
                    assert(all.skip(j + 1) =~= all.skip(j).skip(1));
                }
            } else {
                i += 1;
                proof {
                    assert(now.take(i as int) =~= now.take(i - 1).push(now[i - 1]));
                    assert(now.skip(i as int) =~= now.skip(i - 1).skip(1));
                    assert(all.skip(j + 1) =~= all.skip(j).skip(1));
                }
            }
            proof {
                j = j + 1;
            }
        }
        proof {
            assert(self@.pending.skip(i as int).len() == 0);
            assert(all.skip(j).len() == 0);
            assert(all.take(j) =~= all);
            assert(self@.pending.take(i as int) =~= self@.pending);
        }
    }

    fn forget_paired(&mut self, identity: &str)
        ensures
            final(self)@ == (AgentsView {
                paired: other_paired(old(self)@.paired, identity@),
                ..old(self)@
            }),
    {
        let ghost before = self@;
        let ghost all = before.paired;
        let ghost mut j: int = 0;
        let mut i: usize = 0;
        assert(all.take(0) =~= Seq::empty());
        while i < self.paired.len()
            invariant
                0 <= j <= all.len(),
                i <= self.paired@.len(),
                self@ == (AgentsView { paired: self@.paired, ..before }),
                self@.paired.take(i as int) == other_paired(all.take(j), identity@),
                self@.paired.skip(i as int) == all.skip(j),
            decreases self.paired.len() - i,
        {
            let ghost now = self@.paired;
            proof {
                assert(now.skip(i as int).len() == all.skip(j).len());
                lemma_other_paired_next(all, identity@, j);
                assert(now[i as int] == now.skip(i as int)[0]);
                assert(all[j] == all.skip(j)[0]);
            }
            if same(&self.paired[i].identity, identity) {
                self.paired.remove(i);
                proof {
                    assert(self@.paired =~= now.remove(i as int));
                    assert(self@.paired.take(i as int) =~= now.take(i as int));
                    assert(self@.paired.skip(i as int) =~= now.skip(i as int).skip(1));
                    assert(all.skip(j + 1) =~= all.skip(j).skip(1));
                }
            } else {
                i += 1;
                proof {
                    assert(now.take(i as int) =~= now.take(i - 1).push(now[i - 1]));
                    assert(now.skip(i as int) =~= now.skip(i - 1).skip(1));
                    assert(all.skip(j + 1) =~= all.skip(j).skip(1));
                }
            }
            proof {
                j = j + 1;
            }
        }
        proof {
            assert(self@.paired.skip(i as int).len() == 0);
            assert(all.skip(j).len() == 0);
            assert(all.take(j) =~= all);
            assert(self@.paired.take(i as int) =~= self@.paired);
        }
    }

    /// Handles a hello on connection `conn`. `minted` and `suffix` are three random
    /// bytes each, empty where no randomness could be had.
    pub fn hello(&mut self, claim: HelloClaim<'_>, conn: u64, minted: &[u8], suffix: &[u8]) -> (r: (
        HelloOutcome,
        Vec<Effect>,
    ))
        ensures
            (final(self)@, r.0@, effects(r.1@)) == hello_spec(
                old(self)@,
                claim@,
                conn,
                minted@,
                suffix@,
            ),
    {
        let ghost before = self@;
        let mut todo: Vec<Effect> = Vec::new();
        proof {
            assert(effects(todo@) =~= Seq::<EffectView>::empty());
        }
        if claim.protocol != PROTOCOL_VERSION {
            let mut reason = "protocol ".to_string();
            push_decimal(&mut reason, claim.protocol as u64);
            reason.append(" is not ");
            push_decimal(&mut reason, PROTOCOL_VERSION as u64);
            reason.append("; update the agent or the add-on");
            return (HelloOutcome::Denied(reason), todo);
        }
        let identity = identity_for(claim.machine_id, claim.user);
        let label = label_for(claim.hostname, claim.user);
        match claim.token {
            Some(token) => {
                let i = match self.holder_index(&identity, token) {
                    Some(i) => i,
                    None => {
                        return (
                            HelloOutcome::Denied(
                                "token not recognised; remove the agent's config and pair again".to_string(),
                            ),
                            todo,
                        );
                    },
                };
                let node_name = self.paired[i].node_name.clone();
                let renamed = !same(&self.paired[i].label, &label);
                let ghost agent = self@.paired[i as int];
                if renamed {
                    self.relabel(&identity, &label);
                    todo.push(Effect::Save);
                }
                let live = Live { label: label.clone(), state: HostState::new(), conn };
                self.live.insert(node_name.clone(), live);
                todo.push(Effect::Notify);
                proof {
                    assert(self@.live =~= before.live.insert(agent.node_name, live@));
                    if renamed {
                        assert(effects(todo@) =~= seq![EffectView::Save, EffectView::Notify]);
                    } else {
                        assert(effects(todo@) =~= seq![EffectView::Notify]);
                    }
                }
                return (HelloOutcome::Welcome { node_name, label }, todo);
            },
            None => {},
        }
        let code = match valid_pair_code(claim.pair_code) {
            Some(code) => code,
            None => match self.pending_index(&identity) {
                Some(i) => self.pending[i].code.clone(),
                None => {
                    if minted.len() == 0 {
                        return (
                            HelloOutcome::Denied(
                                "daemon could not generate a pairing code".to_string(),
                            ),
                            todo,
                        );
                    }
                    to_upper(&hex_of(minted))
                },
            },
        };
        let node_name = self.node_name_for_identity(&identity, claim.hostname, claim.user, suffix);
        self.forget_pending(&identity);
        let ghost others = self@.pending;
        todo.push(Effect::Send { conn, msg: DaemonMsg::PairPending { code: code.clone() } });
        todo.push(Effect::Notify);
        self.pending.push(Pending { identity, label, node_name, code, conn });
        proof {
            assert(self@.pending =~= others.push(
                PendingView {
                    identity: identity@,
                    label: label@,
                    node_name: node_name@,
                    code: code@,
                    conn,
                },
            ));
            assert(effects(todo@) =~= seq![
                EffectView::Send { conn, msg: DaemonMsgView::PairPending { code: code@ } },
                EffectView::Notify,
            ]);
        }
        (HelloOutcome::Pending, todo)
    }

    fn relabel(&mut self, identity: &str, label: &str)
        requires
            exists|k: int|
                0 <= k < old(self).paired@.len() && (#[trigger] old(self).paired@[k]).identity@
                    == identity@,
        ensures
            final(self)@ == (AgentsView {
                paired: relabelled(old(self)@.paired, identity@, label@),
                ..old(self)@
            }),
    {
        match self.paired_index(identity) {
            Some(i) => {
                let ghost before = self@;
                let mut agent = self.paired[i].copy();
                agent.label = label.to_string();
                self.paired.set(i, agent);
                proof {
                    lemma_relabelled_at(before.paired, identity@, label@, i as int);
                    assert(self@.paired =~= before.paired.update(i as int, agent@));
                }
            },
            None => {},
        }
    }

    /// Approves the pending request of `identity`. `token` is 24 random bytes, empty
    /// where no randomness could be had. The name was settled at the hello.
    pub fn approve(&mut self, identity: &str, token: &[u8]) -> (r: (
        Result<PairedAgent, String>,
        Vec<Effect>,
    ))
        ensures
            ({
                let (after, result, todo) = approve_spec(old(self)@, identity@, token@);
                &&& final(self)@ == after
                &&& match r.0 {
                    Ok(agent) => result == Ok::<PairedView, Seq<char>>(agent@),
                    Err(e) => result == Err::<PairedView, Seq<char>>(e@),
                }
                &&& effects(r.1@) == todo
            }),
    {
        let ghost before = self@;
        let mut todo: Vec<Effect> = Vec::new();
        proof {
            assert(effects(todo@) =~= Seq::<EffectView>::empty());
        }
        let i = match self.pending_index(identity) {
            Some(i) => i,
            None => {
                return (Err("no pending pair request for that identity".to_string()), todo);
            },
        };
        let request = self.pending.remove(i);
        proof {
            lemma_without_first_at(before.pending, identity@, i as int);
            assert(self@.pending =~= before.pending.remove(i as int));
            assert(request@ == before.pending[i as int]);
        }
        if token.len() == 0 {
            return (Err("daemon could not generate a token".to_string()), todo);
        }
        let agent = PairedAgent {
            identity: identity.to_string(),
            label: request.label.clone(),
            node_name: request.node_name.clone(),
            token: hex_of(token),
        };
        self.forget_paired(identity);
        let ghost others = self@.paired;
        self.paired.push(agent.copy());
        todo.push(Effect::Save);
        todo.push(
            Effect::Send {
                conn: request.conn,
                msg: DaemonMsg::Paired { token: agent.token.clone() },
            },
        );
        todo.push(Effect::Notify);
        proof {
            assert(self@.paired =~= others.push(agent@));
            assert(effects(todo@) =~= seq![
                EffectView::Save,
                EffectView::Send {
                    conn: request.conn,
                    msg: DaemonMsgView::Paired { token: agent.token@ },
                },
                EffectView::Notify,
            ]);
        }
        (Ok(agent), todo)
    }

    /// Whether `identity` is approved.
    pub fn is_paired(&self, identity: &str) -> (r: bool)
        ensures
            r == (paired_of(self@.paired, identity@) is Some),
    {
        self.paired_index(identity).is_some()
    }

    /// Who is behind an output's node name, approved or asking.
    pub fn identity_for_node(&self, node_name: &str) -> (r: Option<String>)
        ensures
            opt_view(r) == identity_at(self@, node_name@),
    {
        let mut i: usize = 0;
        proof {
            assert(self@.paired.skip(0) =~= self@.paired);
            assert(self@.pending.skip(0) =~= self@.pending);
        }
        while i < self.paired.len()
            invariant
                i <= self.paired@.len(),
                paired_named(self@.paired, node_name@) == paired_named(
                    self@.paired.skip(i as int),
                    node_name@,
                ),
            decreases self.paired.len() - i,
        {
            if same(&self.paired[i].node_name, node_name) {
                return Some(self.paired[i].identity.clone());
            }
            assert(self@.paired.skip(i as int).skip(1) =~= self@.paired.skip(i + 1));
            i += 1;
        }
        let mut k: usize = 0;
        while k < self.pending.len()
            invariant
                k <= self.pending@.len(),
                paired_named(self@.paired, node_name@) is None,
                pending_named(self@.pending, node_name@) == pending_named(
                    self@.pending.skip(k as int),
                    node_name@,
                ),
            decreases self.pending.len() - k,
        {
            if same(&self.pending[k].node_name, node_name) {
                return Some(self.pending[k].identity.clone());
            }
            assert(self@.pending.skip(k as int).skip(1) =~= self@.pending.skip(k + 1));
            k += 1;
        }
        None
    }

    /// Revokes an approval: its token stops working, and a live connection is told
    /// that it is no receiver any more.
    pub fn unpair(&mut self, identity: &str) -> (r: (Result<(), String>, Vec<Effect>))
        ensures
            (final(self)@, told(r.0), effects(r.1@)) == unpair_spec(old(self)@, identity@),
    {
        let ghost before = self@;
        let mut todo: Vec<Effect> = Vec::new();
        proof {
            assert(effects(todo@) =~= Seq::<EffectView>::empty());
        }
        let i = match self.paired_index(identity) {
            Some(i) => i,
            None => {
                return (Err("no such paired agent".to_string()), todo);
            },
        };
        let node_name = self.paired[i].node_name.clone();
        self.forget_paired(identity);
        todo.push(Effect::Save);
        let gone = self.live.remove(&node_name);
        proof {
            assert(self@.live =~= before.live.remove(node_name@));
        }
        match gone {
            Some(live) => {
                assert(live@ == before.live[node_name@]);
                todo.push(Effect::Send { conn: live.conn, msg: DaemonMsg::Release });
                todo.push(
                    Effect::Send {
                        conn: live.conn,
                        msg: DaemonMsg::Denied { reason: "pairing was removed".to_string() },
                    },
                );
                todo.push(Effect::Notify);
                assert(effects(todo@) =~= seq![
                    EffectView::Save,
                    EffectView::Send { conn: live.conn, msg: DaemonMsgView::Release },
                    EffectView::Send {
                        conn: live.conn,
                        msg: DaemonMsgView::Denied { reason: "pairing was removed"@ },
                    },
                    EffectView::Notify,
                ]);
            },
            None => {
                todo.push(Effect::Notify);
                assert(effects(todo@) =~= seq![EffectView::Save, EffectView::Notify]);
            },
        }
        (Ok(()), todo)
    }

    /// Drops a connection that closed. True where listeners are to be told.
    pub fn disconnected(&mut self, node_name: &str) -> (r: bool)
        ensures
            final(self)@ == (AgentsView { live: old(self)@.live.remove(node_name@), ..old(self)@ }),
            r == old(self)@.live.contains_key(node_name@),
    {
        let ghost before = self@;
        let r = self.live.remove(node_name).is_some();
        assert(self@.live =~= before.live.remove(node_name@));
        r
    }

    /// Drops the requests of `identity`, whose connection closed.
    pub fn drop_pending(&mut self, identity: &str)
        ensures
            final(self)@ == (AgentsView {
                pending: other_pending(old(self)@.pending, identity@),
                ..old(self)@
            }),
    {
        self.forget_pending(identity);
    }

    /// Takes a host's report. True where listeners are to be told.
    pub fn update_state(&mut self, node_name: &str, state: HostState) -> (r: bool)
        ensures
            (final(self)@, r) == report_spec(old(self)@, node_name@, state@),
    {
        let ghost before = self@;
        let (label, conn) = match self.live.get(node_name) {
            Some(live) => {
                if live.state.says(&state) {
                    return false;
                }
                (live.label.clone(), live.conn)
            },
            None => {
                return false;
            },
        };
        let live = Live { label, state, conn };
        self.live.insert(node_name.to_string(), live);
        proof {
            assert(live@ == (LiveView { state: state@, ..before.live[node_name@] }));
            assert(self@.live =~= before.live.insert(node_name@, live@));
        }
        true
    }

    /// What an approved agent says on its connection: a report counts, a second
    /// hello and the rest are passed over. True where listeners are to be told.
    pub fn incoming(&mut self, node_name: &str, msg: AgentMsg) -> (r: bool)
        ensures
            (final(self)@, r) == match msg {
                AgentMsg::State(state) => report_spec(old(self)@, node_name@, state@),
                _ => (old(self)@, false),
            },
    {
        match msg {
            AgentMsg::State(state) => self.update_state(node_name, state),
            _ => false,
        }
    }

    /// The message to queue for a host, and on which connection; none where the
    /// host is not connected.
    fn send(&self, node_name: &str, msg: DaemonMsg) -> (r: Option<(u64, DaemonMsg)>)
        ensures
            sent(r) == command(self@, node_name@, msg@),
    {
        match self.live.get(node_name) {
            Some(live) => Some((live.conn, msg)),
            None => None,
        }
    }

    /// Sets a host's master level.
    pub fn set_volume(&self, node_name: &str, volume: u32) -> (r: Option<(u64, DaemonMsg)>)
        ensures
            sent(r) == command(
                self@,
                node_name@,
                DaemonMsgView::SetVolume { volume: clamped(volume) },
            ),
    {
        self.send(node_name, DaemonMsg::SetVolume { volume: clamp_level(volume) })
    }

    pub fn set_mute(&self, node_name: &str, muted: bool) -> (r: Option<(u64, DaemonMsg)>)
        ensures
            sent(r) == command(self@, node_name@, DaemonMsgView::SetMute { muted }),
    {
        self.send(node_name, DaemonMsg::SetMute { muted })
    }

    /// Lowers the other applications on a host.
    pub fn duck(&self, node_name: &str, depth: u32, ramp_ms: u64) -> (r: Option<(u64, DaemonMsg)>)
        ensures
            sent(r) == command(
                self@,
                node_name@,
                DaemonMsgView::Duck { depth: clamped(depth), ramp_ms },
            ),
    {
        self.send(node_name, DaemonMsg::Duck { depth: clamp_level(depth), ramp_ms })
    }

    pub fn unduck(&self, node_name: &str, ramp_ms: u64) -> (r: Option<(u64, DaemonMsg)>)
        ensures
            sent(r) == command(self@, node_name@, DaemonMsgView::Unduck { ramp_ms }),
    {
        self.send(node_name, DaemonMsg::Unduck { ramp_ms })
    }

    /// Tells a host to stop receiving.
    pub fn release(&self, node_name: &str) -> (r: Option<(u64, DaemonMsg)>)
        ensures
            sent(r) == command(self@, node_name@, DaemonMsgView::Release),
    {
        self.send(node_name, DaemonMsg::Release)
    }

    /// Welcomes a host again, with a new playout delay.
    pub fn retune(&self, node_name: &str, jitter_ms: u16) -> (r: Option<(u64, DaemonMsg)>)
        ensures
            sent(r) == command(self@, node_name@, welcome_spec(node_name@, jitter_ms)),
    {
        self.send(node_name, welcome(node_name, jitter_ms))
    }

    /// What a connected host last reported.
    pub fn state(&self, node_name: &str) -> (r: Option<HostState>)
        ensures
            match r {
                Some(state) => self@.live.contains_key(node_name@) && state@
                    == self@.live[node_name@].state,
                None => !self@.live.contains_key(node_name@),
            },
    {
        match self.live.get(node_name) {
            Some(live) => Some(live.state.copy()),
            None => None,
        }
    }

    /// Whether a host can be muted from here, and whether it is.
    pub fn muted(&self, node_name: &str) -> (r: Option<bool>)
        ensures
            r == if self@.live.contains_key(node_name@) {
                self@.live[node_name@].state.muted
            } else {
                None
            },
    {
        match self.live.get(node_name) {
            Some(live) => live.state.muted,
            None => None,
        }
    }

    /// Whether a host's level can be set from here, and what it is.
    pub fn level(&self, node_name: &str) -> (r: Option<u32>)
        ensures
            r == if self@.live.contains_key(node_name@) {
                self@.live[node_name@].state.volume
            } else {
                None
            },
    {
        match self.live.get(node_name) {
            Some(live) => live.state.volume,
            None => None,
        }
    }

    pub fn is_connected(&self, node_name: &str) -> (r: bool)
        ensures
            r == self@.live.contains_key(node_name@),
    {
        self.live.contains_key(node_name)
    }

    /// Every host for the list of outputs: the approved ones, then the ones asking.
    pub fn hosts(&self) -> (r: Vec<HostRow>)
        ensures
            r@.map_values(|h: HostRow| h@) == hosts_spec(self@),
    {
        let mut rows: Vec<HostRow> = Vec::new();
        let ghost want = hosts_spec(self@);
        let n: usize = self.paired.len();
        let mut i: usize = 0;
        while i < n
            invariant
                i <= n,
                n == self.paired@.len(),
                want == hosts_spec(self@),
                rows@.len() == i,
                forall|j: int| 0 <= j < i ==> (#[trigger] rows@[j])@ == want[j],
            decreases n - i,
        {
            let a = &self.paired[i];
            let (label, connected) = match self.live.get(&a.node_name) {
                Some(live) => (live.label.clone(), true),
                None => (a.label.clone(), false),
            };
            let row = HostRow {
                node_name: a.node_name.clone(),
                label,
                connected,
                paired: true,
                pair_code: None,
            };
            proof {
                assert(want[i as int] == paired_row(self@, self@.paired[i as int]));
                assert(row@ == want[i as int]);
            }
            rows.push(row);
            i += 1;
        }
        let m: usize = self.pending.len();
        let mut k: usize = 0;
        while k < m
            invariant
                k <= m,
                m == self.pending@.len(),
                n == self.paired@.len(),
                want == hosts_spec(self@),
                rows@.len() == n + k,
                forall|j: int| 0 <= j < n + k ==> (#[trigger] rows@[j])@ == want[j],
            decreases m - k,
        {
            let p = &self.pending[k];
            let row = HostRow {
                node_name: p.node_name.clone(),
                label: p.label.clone(),
                connected: true,
                paired: false,
                pair_code: Some(p.code.clone()),
            };
            proof {
                assert(want[n + k] == pending_row(self@.pending[k as int]));
                assert(row@ == want[n + k]);
            }
            rows.push(row);
            k += 1;
        }
        assert(rows@.map_values(|h: HostRow| h@) =~= want);
        rows
    }

    /// The levels and mutes that connected approved hosts have reported.
    pub fn levels(&self) -> (r: (NameMap<u32>, NameMap<bool>))
        ensures
            r.0@ == reported_volumes(self@),
            r.1@ == reported_mutes(self@),
    {
        let hosts = self.connected_targets();
        let n: usize = hosts.len();
        let ghost names = hosts.names();
        let mut volumes: NameMap<u32> = NameMap::new();
        let mut mutes: NameMap<bool> = NameMap::new();
        let mut i: usize = 0;
        proof {
            assert forall|k: Seq<char>| #[trigger] names.contains(k) <==> connected(
                self@,
            ).contains_key(k) by {
                assert(hosts@.map_values(|l: String| l@).contains_key(k)
                    <==> hosts@.contains_key(k));
            }
        }
        while i < n
            invariant
                i <= n,
                n == names.len(),
                names == hosts.names(),
                forall|k: Seq<char>| #[trigger]
                    names.contains(k) <==> connected(self@).contains_key(k),
                forall|k: Seq<char>| #[trigger]
                    volumes@.contains_key(k) <==> names.take(i as int).contains(k)
                        && self@.live[k].state.volume is Some,
                forall|k: Seq<char>| #[trigger]
                    volumes@.contains_key(k) ==> Some(volumes@[k]) == self@.live[k].state.volume,
                forall|k: Seq<char>| #[trigger]
                    mutes@.contains_key(k) <==> names.take(i as int).contains(k)
                        && self@.live[k].state.muted is Some,
                forall|k: Seq<char>| #[trigger]
                    mutes@.contains_key(k) ==> Some(mutes@[k]) == self@.live[k].state.muted,
            decreases n - i,
        {
            let name = hosts.key_at(i);
            proof {
                lemma_take_next(names, i as int);
                assert(names.contains(names[i as int]));
                assert(connected(self@).contains_key(name@));
            }
            match self.state(name) {
                Some(state) => {
                    match state.volume {
                        Some(v) => {
                            volumes.insert(name.clone(), v);
                        },
                        None => {},
                    }
                    match state.muted {
                        Some(m) => {
                            mutes.insert(name.clone(), m);
                        },
                        None => {},
                    }
                },
                None => {},
            }
            i += 1;
        }
        proof {
            assert(names.take(i as int) =~= names);
            assert(volumes@ =~= reported_volumes(self@));
            assert(mutes@ =~= reported_mutes(self@));
        }
        (volumes, mutes)
    }

    /// The connected approved hosts and what they are called. Only to these can be
    /// played.
    pub fn connected_targets(&self) -> (r: NameMap<String>)
        ensures
            r@.map_values(|l: String| l@) == connected(self@),
    {
        let mut out: NameMap<String> = NameMap::new();
        let ghost names = self@.paired.map_values(|a: PairedView| a.node_name);
        let mut i: usize = 0;
        while i < self.paired.len()
            invariant
                i <= self.paired@.len(),
                names == self@.paired.map_values(|a: PairedView| a.node_name),
                forall|k: Seq<char>| #[trigger]
                    out@.contains_key(k) <==> names.take(i as int).contains(k)
                        && self@.live.contains_key(k),
                forall|k: Seq<char>| #[trigger]
                    out@.contains_key(k) ==> out@[k]@ == self@.live[k].label,
            decreases self.paired.len() - i,
        {
            proof {
                lemma_take_next(names, i as int);
            }
            let name = &self.paired[i].node_name;
            match self.live.get(name) {
                Some(live) => {
                    out.insert(name.clone(), live.label.clone());
                },
                None => {},
            }
            i += 1;
        }
        proof {
            assert(names.take(i as int) =~= names);
            assert forall|k: Seq<char>| #[trigger] names.contains(k) <==> exists|j: int|
                0 <= j < self@.paired.len() && (#[trigger] self@.paired[j]).node_name == k by {
                if names.contains(k) {
                    let j = choose|j: int| 0 <= j < names.len() && names[j] == k;
                    assert(self@.paired[j].node_name == k);
                }
                if exists|j: int|
                    0 <= j < self@.paired.len() && (#[trigger] self@.paired[j]).node_name == k {
                    let j = choose|j: int|
                        0 <= j < self@.paired.len() && (#[trigger] self@.paired[j]).node_name == k;
                    assert(names[j] == k);
                }
            }
            assert(out@.map_values(|l: String| l@) =~= connected(self@));
        }
        out
    }

    /// Approved hosts and pending requests, for diagnostics.
    pub fn snapshot(&self) -> (r: Vec<AgentInfo>)
        ensures
            r@.map_values(|a: AgentInfo| a@) == snapshot_spec(self@),
    {
        let mut rows: Vec<AgentInfo> = Vec::new();
        let ghost want = snapshot_spec(self@);
        let n: usize = self.paired.len();
        let mut i: usize = 0;
        while i < n
            invariant
                i <= n,
                n == self.paired@.len(),
                want == snapshot_spec(self@),
                rows@.len() == i,
                forall|j: int| 0 <= j < i ==> (#[trigger] rows@[j])@ == want[j],
            decreases n - i,
        {
            let a = &self.paired[i];
            let state = self.state(&a.node_name);
            let row = AgentInfo {
                identity: a.identity.clone(),
                label: a.label.clone(),
                node_name: a.node_name.clone(),
                paired: true,
                connected: state.is_some(),
                code: None,
                state,
            };
            proof {
                assert(want[i as int] == paired_info(self@, self@.paired[i as int]));
                assert(row@ == want[i as int]);
            }
            rows.push(row);
            i += 1;
        }
        let m: usize = self.pending.len();
        let mut k: usize = 0;
        while k < m
            invariant
                k <= m,
                m == self.pending@.len(),
                n == self.paired@.len(),
                want == snapshot_spec(self@),
                rows@.len() == n + k,
                forall|j: int| 0 <= j < n + k ==> (#[trigger] rows@[j])@ == want[j],
            decreases m - k,
        {
            let p = &self.pending[k];
            let row = AgentInfo {
                identity: p.identity.clone(),
                label: p.label.clone(),
                node_name: p.node_name.clone(),
                paired: false,
                connected: true,
                code: Some(p.code.clone()),
                state: None,
            };
            proof {
                assert(want[n + k] == pending_info(self@.pending[k as int]));
                assert(row@ == want[n + k]);
            }
            rows.push(row);
            k += 1;
        }
        assert(rows@.map_values(|a: AgentInfo| a@) =~= want);
        rows
    }

    /// The message an announcement's request comes to, where its host is connected.
    pub fn relay_duck(&self, request: &RemoteDuck) -> (r: Option<(u64, DaemonMsg)>)
        ensures
            sent(r) == match *request {
                RemoteDuck::Duck { node_name, depth } => command(
                    self@,
                    node_name@,
                    DaemonMsgView::Duck { depth: clamped(depth), ramp_ms: ANNOUNCE_DUCK_RAMP_MS },
                ),
                RemoteDuck::Unduck { node_name } => command(
                    self@,
                    node_name@,
                    DaemonMsgView::Unduck { ramp_ms: ANNOUNCE_UNDUCK_RAMP_MS },
                ),
            },
    {
        match request {
            RemoteDuck::Duck { node_name, depth } => self.duck(
                node_name,
                *depth,
                ANNOUNCE_DUCK_RAMP_MS,
            ),
            RemoteDuck::Unduck { node_name } => self.unduck(node_name, ANNOUNCE_UNDUCK_RAMP_MS),
        }
    }
}

/// What an announcement asks of a host. The depth is the bits of a 32-bit float.
#[derive(Debug, PartialEq)]
pub enum RemoteDuck {
    Duck { node_name: String, depth: u32 },
    Unduck { node_name: String },
}

/// The request to lower the other applications of an output; none for an output
/// that is no receiver host.
pub fn duck_output(node_name: &str, depth: u32) -> (r: Option<RemoteDuck>)
    ensures
        match r {
            Some(RemoteDuck::Duck { node_name: name, depth: d }) => PWSINK_DEV_PREFIX@.is_prefix_of(
                node_name@,
            ) && name@ == node_name@ && d == depth,
            Some(_) => false,
            None => !PWSINK_DEV_PREFIX@.is_prefix_of(node_name@),
        },
{
    if starts_with(node_name, PWSINK_DEV_PREFIX) {
        Some(RemoteDuck::Duck { node_name: node_name.to_string(), depth })
    } else {
        None
    }
}

/// The request to release it again.
pub fn unduck_output(node_name: &str) -> (r: Option<RemoteDuck>)
    ensures
        match r {
            Some(RemoteDuck::Unduck { node_name: name }) => PWSINK_DEV_PREFIX@.is_prefix_of(
                node_name@,
            ) && name@ == node_name@,
            Some(_) => false,
            None => !PWSINK_DEV_PREFIX@.is_prefix_of(node_name@),
        },
{
    if starts_with(node_name, PWSINK_DEV_PREFIX) {
        Some(RemoteDuck::Unduck { node_name: node_name.to_string() })
    } else {
        None
    }
}

// ---- laws -------------------------------------------------------------------

/// Whether the registry lists this identity under this node name.
pub open spec fn lists(s: AgentsView, identity: Seq<char>, name: Seq<char>) -> bool {
    ||| exists|i: int|
        0 <= i < s.paired.len() && (#[trigger] s.paired[i]).identity == identity
            && s.paired[i].node_name == name
    ||| exists|i: int|
        0 <= i < s.pending.len() && (#[trigger] s.pending[i]).identity == identity
            && s.pending[i].node_name == name
}

/// No two identities share a node name, and none has two.
pub open spec fn names_apart(s: AgentsView) -> bool {
    forall|a: Seq<char>, n: Seq<char>, b: Seq<char>, m: Seq<char>| #[trigger]
        lists(s, a, n) && #[trigger] lists(s, b, m) ==> (a == b <==> n == m)
}

proof fn lemma_other_pending(p: Seq<PendingView>, identity: Seq<char>)
    ensures
        forall|k: int|
            0 <= k < other_pending(p, identity).len() ==> (#[trigger] other_pending(
                p,
                identity,
            )[k]).identity != identity && p.contains(other_pending(p, identity)[k]),
        forall|k: int|
            0 <= k < p.len() && (#[trigger] p[k]).identity != identity ==> other_pending(
                p,
                identity,
            ).contains(p[k]),
    decreases p.len(),
{
    if p.len() > 0 {
        let q = p.drop_last();
        lemma_other_pending(q, identity);
        let o = other_pending(q, identity);
        let r = other_pending(p, identity);
        assert forall|k: int| 0 <= k < r.len() implies (#[trigger] r[k]).identity != identity
            && p.contains(r[k]) by {
            if k < o.len() {
                assert(q.contains(o[k]));
                let j = choose|j: int| 0 <= j < q.len() && q[j] == o[k];
                assert(p[j] == r[k]);
            } else {
                assert(p[p.len() - 1] == r[k]);
            }
        }
        assert forall|k: int| 0 <= k < p.len() && (#[trigger] p[k]).identity
            != identity implies r.contains(p[k]) by {
            if k < q.len() {
                assert(q[k].identity != identity);
                let j = choose|j: int| 0 <= j < o.len() && o[j] == q[k];
                assert(r[j] == p[k]);
            } else {
                assert(r[r.len() - 1] == p[k]);
            }
        }
    }
}

proof fn lemma_other_paired(p: Seq<PairedView>, identity: Seq<char>)
    ensures
        forall|k: int|
            0 <= k < other_paired(p, identity).len() ==> (#[trigger] other_paired(
                p,
                identity,
            )[k]).identity != identity && p.contains(other_paired(p, identity)[k]),
        forall|k: int|
            0 <= k < p.len() && (#[trigger] p[k]).identity != identity ==> other_paired(
                p,
                identity,
            ).contains(p[k]),
    decreases p.len(),
{
    if p.len() > 0 {
        let q = p.drop_last();
        lemma_other_paired(q, identity);
        let o = other_paired(q, identity);
        let r = other_paired(p, identity);
        assert forall|k: int| 0 <= k < r.len() implies (#[trigger] r[k]).identity != identity
            && p.contains(r[k]) by {
            if k < o.len() {
                assert(q.contains(o[k]));
                let j = choose|j: int| 0 <= j < q.len() && q[j] == o[k];
                assert(p[j] == r[k]);
            } else {
                assert(p[p.len() - 1] == r[k]);
            }
        }
        assert forall|k: int| 0 <= k < p.len() && (#[trigger] p[k]).identity
            != identity implies r.contains(p[k]) by {
            if k < q.len() {
                assert(q[k].identity != identity);
                let j = choose|j: int| 0 <= j < o.len() && o[j] == q[k];
                assert(r[j] == p[k]);
            } else {
                assert(r[r.len() - 1] == p[k]);
            }
        }
    }
}

proof fn lemma_paired_of(p: Seq<PairedView>, identity: Seq<char>)
    ensures
        match paired_of(p, identity) {
            Some(a) => a.identity == identity && p.contains(a),
            None => forall|k: int| 0 <= k < p.len() ==> (#[trigger] p[k]).identity != identity,
        },
    decreases p.len(),
{
    if p.len() > 0 && p[0].identity != identity {
        let q = p.skip(1);
        lemma_paired_of(q, identity);
        match paired_of(p, identity) {
            Some(a) => {
                let j = choose|j: int| 0 <= j < q.len() && q[j] == a;
                assert(p[j + 1] == a);
            },
            None => {
                assert forall|k: int| 0 <= k < p.len() implies (#[trigger] p[k]).identity
                    != identity by {
                    if k > 0 {
                        assert(q[k - 1].identity != identity);
                    }
                }
            },
        }
    } else if p.len() > 0 {
        assert(p.contains(p[0]));
    }
}

proof fn lemma_pending_of(p: Seq<PendingView>, identity: Seq<char>)
    ensures
        match pending_of(p, identity) {
            Some(a) => a.identity == identity && p.contains(a),
            None => forall|k: int| 0 <= k < p.len() ==> (#[trigger] p[k]).identity != identity,
        },
    decreases p.len(),
{
    if p.len() > 0 && p[0].identity != identity {
        let q = p.skip(1);
        lemma_pending_of(q, identity);
        match pending_of(p, identity) {
            Some(a) => {
                let j = choose|j: int| 0 <= j < q.len() && q[j] == a;
                assert(p[j + 1] == a);
            },
            None => {
                assert forall|k: int| 0 <= k < p.len() implies (#[trigger] p[k]).identity
                    != identity by {
                    if k > 0 {
                        assert(q[k - 1].identity != identity);
                    }
                }
            },
        }
    } else if p.len() > 0 {
        assert(p.contains(p[0]));
    }
}

/// A request puts exactly one row of its identity into the list of requests, at
/// its end, and leaves every other row alone.
pub proof fn law_one_request_per_identity(
    s: AgentsView,
    c: ClaimView,
    conn: u64,
    minted: Seq<u8>,
    suffix: Seq<u8>,
)
    requires
        hello_spec(s, c, conn, minted, suffix).1 is Pending,
    ensures
        ({
            let after = hello_spec(s, c, conn, minted, suffix).0.pending;
            let identity = identity_of(c.machine_id, c.user);
            &&& after.len() > 0
            &&& after.last().identity == identity
            &&& pending_of(after, identity) == Some(after.last())
            &&& forall|k: int|
                0 <= k < after.len() - 1 ==> (#[trigger] after[k]).identity != identity
            &&& forall|k: int|
                0 <= k < s.pending.len() && (#[trigger] s.pending[k]).identity != identity
                    ==> after.contains(s.pending[k])
        }),
{
    let after = hello_spec(s, c, conn, minted, suffix).0.pending;
    let identity = identity_of(c.machine_id, c.user);
    let others = other_pending(s.pending, identity);
    lemma_other_pending(s.pending, identity);
    assert forall|k: int| 0 <= k < after.len() - 1 implies (#[trigger] after[k]).identity
        != identity by {
        assert(after[k] == others[k]);
    }
    lemma_pending_of_skip(after, identity, after.len() - 1);
    assert(after.skip(after.len() - 1)[0] == after.last());
    assert forall|k: int| 0 <= k < s.pending.len() && (#[trigger] s.pending[k]).identity
        != identity implies after.contains(s.pending[k]) by {
        let j = choose|j: int| 0 <= j < others.len() && others[j] == s.pending[k];
        assert(after[j] == s.pending[k]);
    }
}

/// A hello without a token touches no approval and no connection.
pub proof fn law_tokenless_hello_disturbs_no_pairing(
    s: AgentsView,
    c: ClaimView,
    conn: u64,
    minted: Seq<u8>,
    suffix: Seq<u8>,
)
    requires
        c.token is None,
    ensures
        hello_spec(s, c, conn, minted, suffix).0.paired == s.paired,
        hello_spec(s, c, conn, minted, suffix).0.live == s.live,
        !(hello_spec(s, c, conn, minted, suffix).1 is Welcome),
{
}

/// Names stay apart through a hello, unless the host's own names are exhausted and
/// the random one is taken as well.
pub proof fn law_hello_keeps_names_apart(
    s: AgentsView,
    c: ClaimView,
    conn: u64,
    minted: Seq<u8>,
    suffix: Seq<u8>,
)
    requires
        names_apart(s),
        ({
            let identity = identity_of(c.machine_id, c.user);
            exhausted(s, identity, c.hostname, c.user) ==> !taken(
                s,
                identity,
                name_for(s, identity, c.hostname, c.user, suffix),
            )
        }),
    ensures
        names_apart(hello_spec(s, c, conn, minted, suffix).0),
{
    let identity = identity_of(c.machine_id, c.user);
    let label = label_of(c.hostname, c.user);
    let t = hello_spec(s, c, conn, minted, suffix).0;
    match hello_spec(s, c, conn, minted, suffix).1 {
        OutcomeView::Denied(_) => {},
        OutcomeView::Welcome { .. } => {
            lemma_relabelled_names(s.paired, identity, label);
            assert forall|a: Seq<char>, n: Seq<char>| lists(t, a, n) implies lists(s, a, n) by {
                if exists|i: int|
                    0 <= i < t.paired.len() && (#[trigger] t.paired[i]).identity == a
                        && t.paired[i].node_name == n {
                    let i = choose|i: int|
                        0 <= i < t.paired.len() && (#[trigger] t.paired[i]).identity == a
                            && t.paired[i].node_name == n;
                    assert(s.paired[i].identity == a && s.paired[i].node_name == n);
                }
            }
        },
        OutcomeView::Pending => {
            let name = name_for(s, identity, c.hostname, c.user, suffix);
            lemma_paired_of(s.paired, identity);
            lemma_other_pending(s.pending, identity);
            let others = other_pending(s.pending, identity);
            if paired_of(s.paired, identity) is None && !exhausted(s, identity, c.hostname, c.user) {
                law_fresh_names_are_free(s, identity, c.hostname, c.user, suffix);
            }
            assert forall|a: Seq<char>, n: Seq<char>| #[trigger] lists(t, a, n) implies (a
                == identity && n == name) || (a != identity && n != name && lists(s, a, n)) by {
                if exists|i: int|
                    0 <= i < t.paired.len() && (#[trigger] t.paired[i]).identity == a
                        && t.paired[i].node_name == n {
                    let i = choose|i: int|
                        0 <= i < t.paired.len() && (#[trigger] t.paired[i]).identity == a
                            && t.paired[i].node_name == n;
                    assert(lists(s, a, n));
                    if a == identity {
                        let agent = paired_of(s.paired, identity)->0;
                        let k = choose|k: int| 0 <= k < s.paired.len() && s.paired[k] == agent;
                        assert(s.paired[k].node_name == name);
                        assert(lists(s, identity, name));
                    } else {
                        lemma_others_are_named_otherwise(s, identity, name, a, n, c, suffix);
                    }
                } else {
                    let i = choose|i: int|
                        0 <= i < t.pending.len() && (#[trigger] t.pending[i]).identity == a
                            && t.pending[i].node_name == n;
                    if i < others.len() {
                        assert(others[i].identity != identity);
                        let k = choose|k: int|
                            0 <= k < s.pending.len() && s.pending[k] == others[i];
                        assert(s.pending[k].identity == a && s.pending[k].node_name == n);
                        assert(lists(s, a, n));
                        lemma_others_are_named_otherwise(s, identity, name, a, n, c, suffix);
                    }
                }
            }
        },
    }
}

proof fn lemma_others_are_named_otherwise(
    s: AgentsView,
    identity: Seq<char>,
    name: Seq<char>,
    a: Seq<char>,
    n: Seq<char>,
    c: ClaimView,
    suffix: Seq<u8>,
)
    requires
        names_apart(s),
        name == name_for(s, identity, c.hostname, c.user, suffix),
        paired_of(s.paired, identity) is None ==> !taken(s, identity, name),
        a != identity,
        lists(s, a, n),
    ensures
        n != name,
{
    lemma_paired_of(s.paired, identity);
    if n == name {
        match paired_of(s.paired, identity) {
            Some(agent) => {
                let k = choose|k: int| 0 <= k < s.paired.len() && s.paired[k] == agent;
                assert(s.paired[k].identity == identity && s.paired[k].node_name == name);
                assert(lists(s, identity, name));
                assert(lists(s, a, n));
            },
            None => {
                assert(taken(s, identity, name));
            },
        }
    }
}

proof fn lemma_relabelled_names(p: Seq<PairedView>, identity: Seq<char>, label: Seq<char>)
    ensures
        relabelled(p, identity, label).len() == p.len(),
        forall|k: int|
            0 <= k < p.len() ==> (#[trigger] relabelled(p, identity, label)[k])
                == (PairedView { label: relabelled(p, identity, label)[k].label, ..p[k] }),
    decreases p.len(),
{
    if p.len() > 0 && p[0].identity != identity {
        let q = p.skip(1);
        lemma_relabelled_names(q, identity, label);
        let r = relabelled(p, identity, label);
        let o = relabelled(q, identity, label);
        assert forall|k: int| 0 <= k < p.len() implies (#[trigger] r[k]) == (PairedView {
            label: r[k].label,
            ..p[k]
        }) by {
            if k > 0 {
                assert(r[k] == o[k - 1]);
                assert(q[k - 1] == p[k]);
            }
        }
    }
}

/// Names stay apart through an approval.
pub proof fn law_approve_keeps_names_apart(s: AgentsView, identity: Seq<char>, token: Seq<u8>)
    requires
        names_apart(s),
    ensures
        names_apart(approve_spec(s, identity, token).0),
{
    let t = approve_spec(s, identity, token).0;
    lemma_pending_of(s.pending, identity);
    lemma_other_paired(s.paired, identity);
    let others = other_paired(s.paired, identity);
    assert forall|a: Seq<char>, n: Seq<char>| lists(t, a, n) implies lists(s, a, n) by {
        if exists|i: int|
            0 <= i < t.pending.len() && (#[trigger] t.pending[i]).identity == a
                && t.pending[i].node_name == n {
            let i = choose|i: int|
                0 <= i < t.pending.len() && (#[trigger] t.pending[i]).identity == a
                    && t.pending[i].node_name == n;
            lemma_without_first_rows(s.pending, identity);
            if pending_of(s.pending, identity) is Some {
                let k = choose|k: int| 0 <= k < s.pending.len() && s.pending[k] == t.pending[i];
                assert(s.pending[k].identity == a && s.pending[k].node_name == n);
            } else {
                assert(s.pending[i].identity == a);
            }
        } else {
            let i = choose|i: int|
                0 <= i < t.paired.len() && (#[trigger] t.paired[i]).identity == a
                    && t.paired[i].node_name == n;
            if t.paired == s.paired {
                assert(s.paired[i].identity == a);
            } else if i < others.len() {
                assert(others[i].identity != identity);
                let k = choose|k: int| 0 <= k < s.paired.len() && s.paired[k] == others[i];
                assert(s.paired[k].identity == a && s.paired[k].node_name == n);
            } else {
                let request = pending_of(s.pending, identity)->0;
                let k = choose|k: int| 0 <= k < s.pending.len() && s.pending[k] == request;
                assert(s.pending[k].identity == a && s.pending[k].node_name == n);
            }
        }
    }
}

proof fn lemma_without_first_rows(p: Seq<PendingView>, identity: Seq<char>)
    ensures
        forall|k: int|
            0 <= k < without_first(p, identity).len() ==> p.contains(
                #[trigger] without_first(p, identity)[k],
            ),
    decreases p.len(),
{
    if p.len() > 0 {
        let q = p.skip(1);
        lemma_without_first_rows(q, identity);
        let r = without_first(p, identity);
        assert forall|k: int| 0 <= k < r.len() implies p.contains(#[trigger] r[k]) by {
            if p[0].identity == identity {
                assert(r[k] == p[k + 1]);
            } else if k == 0 {
                assert(r[0] == p[0]);
            } else {
                let o = without_first(q, identity);
                assert(r[k] == o[k - 1]);
                let j = choose|j: int| 0 <= j < q.len() && q[j] == o[k - 1];
                assert(p[j + 1] == r[k]);
            }
        }
    }
}

/// Names stay apart when an approval is revoked, and when a request is dropped.
pub proof fn law_removal_keeps_names_apart(s: AgentsView, identity: Seq<char>)
    requires
        names_apart(s),
    ensures
        names_apart(unpair_spec(s, identity).0),
        names_apart(AgentsView { pending: other_pending(s.pending, identity), ..s }),
{
    let t = unpair_spec(s, identity).0;
    let u = AgentsView { pending: other_pending(s.pending, identity), ..s };
    lemma_other_paired(s.paired, identity);
    lemma_other_pending(s.pending, identity);
    assert forall|a: Seq<char>, n: Seq<char>| lists(t, a, n) implies lists(s, a, n) by {
        if exists|i: int|
            0 <= i < t.paired.len() && (#[trigger] t.paired[i]).identity == a
                && t.paired[i].node_name == n {
            let i = choose|i: int|
                0 <= i < t.paired.len() && (#[trigger] t.paired[i]).identity == a
                    && t.paired[i].node_name == n;
            if t.paired == s.paired {
                assert(s.paired[i].identity == a);
            } else {
                let k = choose|k: int| 0 <= k < s.paired.len() && s.paired[k] == t.paired[i];
                assert(s.paired[k].identity == a && s.paired[k].node_name == n);
            }
        }
    }
    assert forall|a: Seq<char>, n: Seq<char>| lists(u, a, n) implies lists(s, a, n) by {
        if exists|i: int|
            0 <= i < u.pending.len() && (#[trigger] u.pending[i]).identity == a
                && u.pending[i].node_name == n {
            let i = choose|i: int|
                0 <= i < u.pending.len() && (#[trigger] u.pending[i]).identity == a
                    && u.pending[i].node_name == n;
            let k = choose|k: int| 0 <= k < s.pending.len() && s.pending[k] == u.pending[i];
            assert(s.pending[k].identity == a && s.pending[k].node_name == n);
        }
    }
}

/// The name a request was listed under is the one its approval uses, and a host
/// that was approved before keeps the name it had.
pub proof fn law_repairing_keeps_the_name(
    s: AgentsView,
    c: ClaimView,
    conn: u64,
    minted: Seq<u8>,
    suffix: Seq<u8>,
    token: Seq<u8>,
)
    requires
        hello_spec(s, c, conn, minted, suffix).1 is Pending,
        token.len() > 0,
    ensures
        ({
            let identity = identity_of(c.machine_id, c.user);
            let asked = hello_spec(s, c, conn, minted, suffix).0;
            let approved = approve_spec(asked, identity, token).1;
            &&& approved is Ok
            &&& approved->Ok_0.node_name == asked.pending.last().node_name
            &&& paired_of(s.paired, identity) matches Some(before)
                ==> approved->Ok_0.node_name == before.node_name
        }),
{
    law_one_request_per_identity(s, c, conn, minted, suffix);
}

/// The token that an approval mints lets its host in, under the approved name.
pub proof fn law_minted_tokens_authenticate(
    s: AgentsView,
    c: ClaimView,
    conn: u64,
    minted: Seq<u8>,
    suffix: Seq<u8>,
    token: Seq<u8>,
)
    requires
        c.protocol == PROTOCOL_VERSION,
        approve_spec(s, identity_of(c.machine_id, c.user), token).1 is Ok,
        c.token == Some(approve_spec(s, identity_of(c.machine_id, c.user), token).1->Ok_0.token),
    ensures
        ({
            let identity = identity_of(c.machine_id, c.user);
            let (approved, agent, _) = approve_spec(s, identity, token);
            let (after, outcome, _) = hello_spec(approved, c, conn, minted, suffix);
            &&& outcome matches OutcomeView::Welcome { node_name, .. }
            &&& node_name == agent->Ok_0.node_name
            &&& after.live.contains_key(node_name)
            &&& after.live[node_name].conn == conn
        }),
{
    let identity = identity_of(c.machine_id, c.user);
    let (approved, agent, _) = approve_spec(s, identity, token);
    let others = other_paired(s.paired, identity);
    lemma_other_paired(s.paired, identity);
    assert forall|k: int| 0 <= k < others.len() implies (#[trigger] approved.paired[k]).identity
        != identity by {
        assert(approved.paired[k] == others[k]);
    }
    lemma_holder_of_skip(approved.paired, identity, c.token->0, others.len() as int);
    assert(approved.paired.skip(others.len() as int)[0] == agent->Ok_0);
}

/// A request and its approval.
pub open spec fn asked_and_approved(
    s: AgentsView,
    c: ClaimView,
    conn: u64,
    minted: Seq<u8>,
    suffix: Seq<u8>,
    token: Seq<u8>,
) -> AgentsView {
    approve_spec(
        hello_spec(s, c, conn, minted, suffix).0,
        identity_of(c.machine_id, c.user),
        token,
    ).0
}

/// What one request and its approval leave: the approved host is the one row of its
/// identity, at the end of the list, and no request of it is left.
proof fn lemma_asked_and_approved(
    s: AgentsView,
    c: ClaimView,
    conn: u64,
    minted: Seq<u8>,
    suffix: Seq<u8>,
    token: Seq<u8>,
)
    requires
        hello_spec(s, c, conn, minted, suffix).1 is Pending,
        token.len() > 0,
    ensures
        ({
            let identity = identity_of(c.machine_id, c.user);
            let asked = hello_spec(s, c, conn, minted, suffix).0;
            let after = asked_and_approved(s, c, conn, minted, suffix, token);
            let approved = approve_spec(asked, identity, token).1;
            &&& approved is Ok
            &&& approved->Ok_0.identity == identity
            &&& approved->Ok_0.token == hex_bytes(token)
            &&& approved->Ok_0.node_name == asked.pending.last().node_name
            &&& after.paired.len() > 0
            &&& after.paired.last() == approved->Ok_0
            &&& paired_of(after.paired, identity) == Some(approved->Ok_0)
            &&& forall|k: int|
                0 <= k < after.paired.len() - 1 ==> (#[trigger] after.paired[k]).identity
                    != identity
            &&& forall|k: int|
                0 <= k < after.pending.len() ==> (#[trigger] after.pending[k]).identity != identity
            &&& pending_of(after.pending, identity) is None
        }),
{
    let identity = identity_of(c.machine_id, c.user);
    let asked = hello_spec(s, c, conn, minted, suffix).0;
    let after = asked_and_approved(s, c, conn, minted, suffix, token);
    law_one_request_per_identity(s, c, conn, minted, suffix);
    lemma_without_first_at(asked.pending, identity, asked.pending.len() - 1);
    assert forall|k: int| 0 <= k < after.pending.len() implies (#[trigger]
    after.pending[k]).identity != identity by {
        assert(after.pending[k] == asked.pending[k]);
    }
    lemma_pending_of(after.pending, identity);
    let others = other_paired(asked.paired, identity);
    lemma_other_paired(asked.paired, identity);
    assert forall|k: int| 0 <= k < after.paired.len() - 1 implies (#[trigger]
    after.paired[k]).identity != identity by {
        assert(after.paired[k] == others[k]);
    }
    lemma_paired_of_skip(after.paired, identity, others.len() as int);
    assert(after.paired.skip(others.len() as int)[0] == after.paired.last());
}

/// A host that asks again after it was approved is approved in place of itself: under
/// the name it had, which is also the one it was listed under while it waited, and
/// with the new token. One approved row and no request of it remain, so there is
/// nothing left to approve. The new token lets it in under that name, the earlier one
/// no longer does.
pub proof fn law_pairing_again_replaces_the_pairing(
    s: AgentsView,
    first: ClaimView,
    conn: u64,
    minted: Seq<u8>,
    suffix: Seq<u8>,
    token: Seq<u8>,
    again: ClaimView,
    conn_again: u64,
    minted_again: Seq<u8>,
    suffix_again: Seq<u8>,
    token_again: Seq<u8>,
    later: ClaimView,
    conn_later: u64,
    drawn: Seq<u8>,
)
    requires
        identity_of(again.machine_id, again.user) == identity_of(first.machine_id, first.user),
        identity_of(later.machine_id, later.user) == identity_of(first.machine_id, first.user),
        hello_spec(s, first, conn, minted, suffix).1 is Pending,
        token.len() > 0,
        hello_spec(
            asked_and_approved(s, first, conn, minted, suffix, token),
            again,
            conn_again,
            minted_again,
            suffix_again,
        ).1 is Pending,
        token_again.len() > 0,
        token_again != token,
    ensures
        ({
            let identity = identity_of(first.machine_id, first.user);
            let once = asked_and_approved(s, first, conn, minted, suffix, token);
            let a = approve_spec(
                hello_spec(s, first, conn, minted, suffix).0,
                identity,
                token,
            ).1->Ok_0;
            let waiting = hello_spec(once, again, conn_again, minted_again, suffix_again).0;
            let (twice, result, _) = approve_spec(waiting, identity, token_again);
            let b = result->Ok_0;
            let outcome = hello_spec(twice, later, conn_later, drawn, drawn).1;
            &&& result is Ok
            &&& b.node_name == a.node_name
            &&& b.node_name == waiting.pending.last().node_name
            &&& hosts_spec(waiting).contains(pending_row(waiting.pending.last()))
            &&& b.token != a.token
            &&& b.token.len() > 0
            &&& twice.paired.last() == b && b.identity == identity
            &&& forall|k: int|
                0 <= k < twice.paired.len() - 1 ==> (#[trigger] twice.paired[k]).identity
                    != identity
            &&& forall|k: int|
                0 <= k < twice.pending.len() ==> (#[trigger] twice.pending[k]).identity != identity
            &&& approve_spec(twice, identity, drawn).1 is Err
            &&& later.token == Some(a.token) ==> outcome is Denied
            &&& later.token == Some(b.token) && later.protocol == PROTOCOL_VERSION ==> (outcome
                matches OutcomeView::Welcome { node_name, .. } && node_name == a.node_name)
        }),
{
    let identity = identity_of(first.machine_id, first.user);
    let once = asked_and_approved(s, first, conn, minted, suffix, token);
    let a = approve_spec(hello_spec(s, first, conn, minted, suffix).0, identity, token).1->Ok_0;
    let waiting = hello_spec(once, again, conn_again, minted_again, suffix_again).0;
    let (twice, result, _) = approve_spec(waiting, identity, token_again);
    let b = result->Ok_0;
    lemma_asked_and_approved(s, first, conn, minted, suffix, token);
    lemma_asked_and_approved(once, again, conn_again, minted_again, suffix_again, token_again);
    law_one_request_per_identity(once, again, conn_again, minted_again, suffix_again);
    let rows = hosts_spec(waiting);
    assert(rows[rows.len() - 1] == pending_row(waiting.pending.last()));
    lemma_hex_bytes_len(token_again);
    if b.token == a.token {
        lemma_hex_bytes_injective(token_again, token);
    }
    let last = twice.paired.len() - 1;
    lemma_holder_of_skip(twice.paired, identity, b.token, last);
    assert(twice.paired.skip(last)[0] == b);
    lemma_holder_of_skip(twice.paired, identity, a.token, twice.paired.len() as int);
}

/// Once an approval is revoked, no token lets that identity in; it can ask again.
pub proof fn law_unpairing_revokes_every_token(
    s: AgentsView,
    c: ClaimView,
    conn: u64,
    minted: Seq<u8>,
    suffix: Seq<u8>,
)
    requires
        unpair_spec(s, identity_of(c.machine_id, c.user)).1 is Ok,
        c.protocol == PROTOCOL_VERSION,
    ensures
        ({
            let after = unpair_spec(s, identity_of(c.machine_id, c.user)).0;
            let outcome = hello_spec(after, c, conn, minted, suffix).1;
            &&& c.token is Some ==> outcome is Denied
            &&& c.token is None && minted.len() > 0 ==> outcome is Pending
        }),
{
    let identity = identity_of(c.machine_id, c.user);
    let after = unpair_spec(s, identity).0;
    lemma_other_paired(s.paired, identity);
    if c.token is Some {
        lemma_holder_of_skip(after.paired, identity, c.token->0, after.paired.len() as int);
    }
}

/// A token lets in nobody but the identity it was minted for.
pub proof fn law_tokens_are_bound_to_their_identity(
    s: AgentsView,
    c: ClaimView,
    conn: u64,
    minted: Seq<u8>,
    suffix: Seq<u8>,
)
    requires
        c.token is Some,
        forall|k: int|
            0 <= k < s.paired.len() && (#[trigger] s.paired[k]).token == c.token->0
                ==> s.paired[k].identity != identity_of(c.machine_id, c.user),
    ensures
        hello_spec(s, c, conn, minted, suffix).1 is Denied,
        hello_spec(s, c, conn, minted, suffix).0 == s,
{
    lemma_holder_of_skip(
        s.paired,
        identity_of(c.machine_id, c.user),
        c.token->0,
        s.paired.len() as int,
    );
}

/// A host that asks again is shown with the same code, whether it offers that
/// code or none.
pub proof fn law_codes_survive_a_reconnect(
    s: AgentsView,
    c: ClaimView,
    conn: u64,
    minted: Seq<u8>,
    suffix: Seq<u8>,
    again: ClaimView,
    minted_again: Seq<u8>,
)
    requires
        hello_spec(s, c, conn, minted, suffix).1 is Pending,
        again.machine_id == c.machine_id,
        again.user == c.user,
        pair_code(again.pair_code) is None || pair_code(again.pair_code) == pair_code(c.pair_code),
    ensures
        code_for(hello_spec(s, c, conn, minted, suffix).0, again, minted_again) == code_for(
            s,
            c,
            minted,
        ),
{
    law_one_request_per_identity(s, c, conn, minted, suffix);
}

/// A level from 0 to 1 stays as it is, one above comes out as 1, one below as 0.
pub proof fn law_levels_in_range_stay(bits: u32)
    ensures
        bits <= 0x3f80_0000 ==> clamped(bits) == bits,
        0x3f80_0000 < bits <= 0x7f80_0000 ==> clamped(bits) == 0x3f80_0000,
        0x8000_0000 < bits <= 0xff80_0000 ==> clamped(bits) == 0,
{
    assert(bits <= 0x3f80_0000 ==> (bits & 0x7fff_ffff) <= 0x7f80_0000) by (bit_vector);
    assert(0x3f80_0000 < bits <= 0x7f80_0000 ==> (bits & 0x7fff_ffff) <= 0x7f80_0000)
        by (bit_vector);
    assert(0x8000_0000 < bits <= 0xff80_0000 ==> (bits & 0x7fff_ffff) <= 0x7f80_0000)
        by (bit_vector);
}

/// An approved host that presents its token is let in under the name it was approved
/// with: it is connected on this connection from then on, with nothing reported yet,
/// shown with its current label, and listeners are told. A label that changed is
/// stored. No other host, connection or request is touched.
pub proof fn law_a_token_lets_its_host_in(
    s: AgentsView,
    c: ClaimView,
    conn: u64,
    minted: Seq<u8>,
    suffix: Seq<u8>,
    k: int,
)
    requires
        c.protocol == PROTOCOL_VERSION,
        c.token is Some,
        0 <= k < s.paired.len(),
        s.paired[k].identity == identity_of(c.machine_id, c.user),
        s.paired[k].token == c.token->0,
        forall|j: int|
            0 <= j < s.paired.len() && j != k ==> (#[trigger] s.paired[j]).identity
                != s.paired[k].identity,
    ensures
        ({
            let (after, outcome, todo) = hello_spec(s, c, conn, minted, suffix);
            let name = s.paired[k].node_name;
            let label = label_of(c.hostname, c.user);
            &&& outcome == (OutcomeView::Welcome { node_name: name, label })
            &&& after.live.contains_key(name)
            &&& after.live[name].conn == conn
            &&& after.live[name].label == label
            &&& after.live[name].state.volume is None
            &&& after.live[name].state.muted is None
            &&& after.live[name].state.sink_name is None
            &&& !after.live[name].state.receiving
            &&& !after.live[name].state.ducked
            &&& after.live.remove(name) == s.live.remove(name)
            &&& after.pending == s.pending
            &&& after.paired.len() == s.paired.len()
            &&& forall|j: int|
                0 <= j < s.paired.len() && j != k ==> #[trigger] after.paired[j] == s.paired[j]
            &&& after.paired[k].label == label
            &&& after.paired[k].identity == s.paired[k].identity
            &&& after.paired[k].node_name == name
            &&& after.paired[k].token == s.paired[k].token
            &&& todo.contains(EffectView::Notify)
            &&& todo.contains(EffectView::Save) <==> s.paired[k].label != label
            &&& forall|i: int| 0 <= i < todo.len() ==> !((#[trigger] todo[i]) is Send)
        }),
{
    let identity = identity_of(c.machine_id, c.user);
    let label = label_of(c.hostname, c.user);
    let (after, outcome, todo) = hello_spec(s, c, conn, minted, suffix);
    lemma_holder_of_skip(s.paired, identity, c.token->0, k);
    assert(s.paired.skip(k)[0] == s.paired[k]);
    lemma_relabelled_at(s.paired, identity, label, k);
    assert(after.live.remove(s.paired[k].node_name) =~= s.live.remove(s.paired[k].node_name));
    if s.paired[k].label != label {
        assert(todo[0] == EffectView::Save);
        assert(todo[1] == EffectView::Notify);
    } else {
        assert(todo[0] == EffectView::Notify);
    }
}

/// A host that speaks another protocol is turned away, whatever it presents, and
/// nothing changes for it.
pub proof fn law_other_protocols_are_turned_away(
    s: AgentsView,
    c: ClaimView,
    conn: u64,
    minted: Seq<u8>,
    suffix: Seq<u8>,
)
    requires
        c.protocol != PROTOCOL_VERSION,
    ensures
        hello_spec(s, c, conn, minted, suffix).0 == s,
        hello_spec(s, c, conn, minted, suffix).1 is Denied,
        hello_spec(s, c, conn, minted, suffix).2.len() == 0,
{
}

/// A host that asks to be paired is listed with its label and its connection, and the
/// code it is listed with is the one it is told on that connection: its own where it
/// offers six digits of the kind that codes are made of. Listeners are told.
pub proof fn law_the_code_that_is_shown_is_the_code_that_is_told(
    s: AgentsView,
    c: ClaimView,
    conn: u64,
    minted: Seq<u8>,
    suffix: Seq<u8>,
)
    requires
        hello_spec(s, c, conn, minted, suffix).1 is Pending,
    ensures
        ({
            let (after, outcome, todo) = hello_spec(s, c, conn, minted, suffix);
            let asked = after.pending.last();
            &&& after.pending.len() > 0
            &&& asked.identity == identity_of(c.machine_id, c.user)
            &&& asked.label == label_of(c.hostname, c.user)
            &&& asked.conn == conn
            &&& todo == seq![
                EffectView::Send { conn, msg: DaemonMsgView::PairPending { code: asked.code } },
                EffectView::Notify,
            ]
            &&& c.pair_code is Some && trimmed(c.pair_code->0).len() == 6 && (forall|i: int|
                0 <= i < 6 ==> {
                    let x = #[trigger] trimmed(c.pair_code->0)[i];
                    ('0' <= x <= '9') || ('A' <= x <= 'F')
                }) ==> asked.code == trimmed(c.pair_code->0)
        }),
{
    if c.pair_code is Some && trimmed(c.pair_code->0).len() == 6 && (forall|i: int|
        0 <= i < 6 ==> {
            let x = #[trigger] trimmed(c.pair_code->0)[i];
            ('0' <= x <= '9') || ('A' <= x <= 'F')
        }) {
        let code = trimmed(c.pair_code->0);
        assert forall|i: int| 0 <= i < code.len() implies code_char(#[trigger] code[i]) by {}
        assert(pair_code(c.pair_code) == Some(code));
    }
}

/// Approving a request pairs the host that asked under the name and the label it was
/// listed with, stores that, tells the new token to the connection that asked, and
/// listeners. The request is gone; every other request, every other host's approval
/// and every connection stays. Without a request nothing happens.
pub proof fn law_approval_answers_the_request(s: AgentsView, identity: Seq<char>, token: Seq<u8>, k: int)
    requires
        0 <= k < s.pending.len() ==> s.pending[k].identity == identity,
        0 <= k < s.pending.len() ==> forall|j: int|
            0 <= j < s.pending.len() && j != k ==> (#[trigger] s.pending[j]).identity != identity,
        !(0 <= k < s.pending.len()) ==> forall|j: int|
            0 <= j < s.pending.len() ==> (#[trigger] s.pending[j]).identity != identity,
    ensures
        ({
            let (after, agent, todo) = approve_spec(s, identity, token);
            let asked = 0 <= k < s.pending.len();
            &&& after.live == s.live
            &&& !asked ==> agent is Err && after == s && todo.len() == 0
            &&& asked ==> after.pending == s.pending.remove(k)
            &&& asked && token.len() == 0 ==> agent is Err && after.paired == s.paired && todo.len()
                == 0
            &&& asked && token.len() > 0 ==> {
                let a = agent->Ok_0;
                &&& agent is Ok
                &&& a.identity == identity
                &&& a.label == s.pending[k].label
                &&& a.node_name == s.pending[k].node_name
                &&& a.token == hex_bytes(token)
                &&& after.paired.len() > 0 && after.paired.last() == a
                &&& forall|j: int|
                    0 <= j < after.paired.len() - 1 ==> (#[trigger] after.paired[j]).identity
                        != identity && s.paired.contains(after.paired[j])
                &&& forall|j: int|
                    0 <= j < s.paired.len() && (#[trigger] s.paired[j]).identity != identity
                        ==> after.paired.contains(s.paired[j])
                &&& todo == seq![
                    EffectView::Save,
                    EffectView::Send {
                        conn: s.pending[k].conn,
                        msg: DaemonMsgView::Paired { token: a.token },
                    },
                    EffectView::Notify,
                ]
            }
        }),
{
    let (after, agent, todo) = approve_spec(s, identity, token);
    if 0 <= k < s.pending.len() {
        lemma_pending_of_skip(s.pending, identity, k);
        assert(s.pending.skip(k)[0] == s.pending[k]);
        lemma_without_first_at(s.pending, identity, k);
        lemma_other_paired(s.paired, identity);
        let others = other_paired(s.paired, identity);
        if token.len() > 0 {
            assert(after.paired == others.push(agent->Ok_0));
            assert forall|j: int| 0 <= j < after.paired.len() - 1 implies (
            #[trigger] after.paired[j]).identity != identity && s.paired.contains(after.paired[j]) by {
                assert(after.paired[j] == others[j]);
            }
            assert forall|j: int|
                0 <= j < s.paired.len() && (#[trigger] s.paired[j]).identity != identity
                implies after.paired.contains(s.paired[j]) by {
                let m = choose|m: int| 0 <= m < others.len() && others[m] == s.paired[j];
                assert(after.paired[m] == s.paired[j]);
            }
        }
    } else {
        lemma_pending_of_skip(s.pending, identity, s.pending.len() as int);
    }
}

/// Revoking an approval stores that and tells listeners. A host that is connected is
/// told to stop receiving and that it is denied, in this order and on its own
/// connection, and is connected no longer. Every other host's approval and connection
/// and every request stays. Without an approval nothing happens.
pub proof fn law_unpairing_lets_the_host_go(s: AgentsView, identity: Seq<char>, k: int)
    requires
        0 <= k < s.paired.len() ==> s.paired[k].identity == identity && forall|j: int|
            0 <= j < k ==> (#[trigger] s.paired[j]).identity != identity,
        !(0 <= k < s.paired.len()) ==> forall|j: int|
            0 <= j < s.paired.len() ==> (#[trigger] s.paired[j]).identity != identity,
    ensures
        ({
            let (after, r, todo) = unpair_spec(s, identity);
            let known = 0 <= k < s.paired.len();
            &&& after.pending == s.pending
            &&& !known ==> r is Err && after == s && todo.len() == 0
            &&& known ==> {
                let name = s.paired[k].node_name;
                &&& r is Ok
                &&& !after.live.contains_key(name)
                &&& after.live == s.live.remove(name)
                &&& forall|j: int|
                    0 <= j < after.paired.len() ==> (#[trigger] after.paired[j]).identity
                        != identity && s.paired.contains(after.paired[j])
                &&& forall|j: int|
                    0 <= j < s.paired.len() && (#[trigger] s.paired[j]).identity != identity
                        ==> after.paired.contains(s.paired[j])
                &&& todo.len() >= 2
                &&& todo[0] == EffectView::Save
                &&& todo.last() == EffectView::Notify
                &&& !s.live.contains_key(name) ==> todo.len() == 2
                &&& s.live.contains_key(name) ==> todo.len() == 4 && todo[1] == (EffectView::Send {
                    conn: s.live[name].conn,
                    msg: DaemonMsgView::Release,
                }) && todo[2] is Send && todo[2]->conn == s.live[name].conn && todo[2]->msg is Denied
            }
        }),
{
    if 0 <= k < s.paired.len() {
        lemma_paired_of_skip(s.paired, identity, k);
        assert(s.paired.skip(k)[0] == s.paired[k]);
        lemma_other_paired(s.paired, identity);
    } else {
        lemma_paired_of_skip(s.paired, identity, s.paired.len() as int);
    }
}

/// A connected host's report is what is known of it afterwards, and listeners are
/// told exactly where it says something new: another level, mute or sink, or that
/// it began or stopped receiving or ducking. What is reported for a host that is not
/// connected is passed over, and no other host is touched.
pub proof fn law_a_new_report_is_kept(s: AgentsView, name: Seq<char>, state: HostStateView)
    ensures
        ({
            let (after, told) = report_spec(s, name, state);
            let was = s.live[name].state;
            &&& after.paired == s.paired
            &&& after.pending == s.pending
            &&& after.live.remove(name) == s.live.remove(name)
            &&& after.live.contains_key(name) == s.live.contains_key(name)
            &&& !s.live.contains_key(name) ==> !told && after == s
            &&& s.live.contains_key(name) ==> {
                &&& after.live[name].label == s.live[name].label
                &&& after.live[name].conn == s.live[name].conn
                &&& (was.muted != state.muted || was.sink_name != state.sink_name || was.receiving
                    != state.receiving || was.ducked != state.ducked || (was.volume is Some)
                    != (state.volume is Some)) ==> told
                &&& told ==> after.live[name].state == state
                &&& !told ==> after == s && was.muted == state.muted && was.sink_name
                    == state.sink_name && was.receiving == state.receiving && was.ducked
                    == state.ducked && (was.volume is Some) == (state.volume is Some)
                &&& was.volume is Some && state.volume is Some && 0 < was.volume->0
                    < 0x8000_0000 && 0 < state.volume->0 < 0x8000_0000 && was.volume->0
                    != state.volume->0 ==> told
                &&& was == state && (state.volume is None || state.volume->0 <= 0x7f80_0000) ==> !told
            }
        }),
{
    let (after, told) = report_spec(s, name, state);
    assert(after.live.remove(name) =~= s.live.remove(name));
    if state.volume is Some {
        let v = state.volume->0;
        assert(v <= 0x7f80_0000 ==> (v & 0x7fff_ffff) <= 0x7f80_0000) by (bit_vector);
        assert(0 < v && v < 0x8000_0000 ==> (v & 0x7fff_ffff) != 0) by (bit_vector);
    }
}

/// Every approved host has its row in the list of outputs, and every one that asks
/// has one with its code, in this order. An approved host shows as connected exactly
/// while it is, with the label it then has.
pub proof fn law_every_host_is_listed(s: AgentsView)
    ensures
        ({
            let rows = hosts_spec(s);
            let n = s.paired.len() as int;
            &&& rows.len() == n + s.pending.len()
            &&& forall|i: int|
                0 <= i < n ==> {
                    let row = #[trigger] rows[i];
                    let name = s.paired[i].node_name;
                    &&& row.node_name == name
                    &&& row.paired
                    &&& row.pair_code is None
                    &&& row.connected == s.live.contains_key(name)
                    &&& s.live.contains_key(name) ==> row.label == s.live[name].label
                    &&& !s.live.contains_key(name) ==> row.label == s.paired[i].label
                }
            &&& forall|i: int|
                n <= i < rows.len() ==> {
                    let row = #[trigger] rows[i];
                    let p = s.pending[i - n];
                    &&& row.node_name == p.node_name
                    &&& row.label == p.label
                    &&& !row.paired
                    &&& row.connected
                    &&& row.pair_code == Some(p.code)
                }
        }),
{
}

/// The same for diagnostics: what a connected host reported stands in its row.
pub proof fn law_every_host_can_be_diagnosed(s: AgentsView)
    ensures
        ({
            let rows = snapshot_spec(s);
            let n = s.paired.len() as int;
            &&& rows.len() == n + s.pending.len()
            &&& forall|i: int|
                0 <= i < n ==> {
                    let row = #[trigger] rows[i];
                    let a = s.paired[i];
                    &&& row.identity == a.identity
                    &&& row.node_name == a.node_name
                    &&& row.label == a.label
                    &&& row.paired
                    &&& row.code is None
                    &&& row.connected == s.live.contains_key(a.node_name)
                    &&& row.state is Some <==> s.live.contains_key(a.node_name)
                    &&& row.state is Some ==> row.state->0 == s.live[a.node_name].state
                }
            &&& forall|i: int|
                n <= i < rows.len() ==> {
                    let row = #[trigger] rows[i];
                    let p = s.pending[i - n];
                    &&& row.identity == p.identity
                    &&& row.node_name == p.node_name
                    &&& row.label == p.label
                    &&& !row.paired
                    &&& row.connected
                    &&& row.code == Some(p.code)
                    &&& row.state is None
                }
        }),
{
}

/// A host can be routed to exactly while it is both approved and connected, and its
/// level and its mute are known exactly from when it has reported them on that
/// connection.
pub proof fn law_connected_hosts_can_be_played_to(s: AgentsView, i: int, name: Seq<char>)
    requires
        0 <= i < s.paired.len(),
    ensures
        ({
            let host = s.paired[i].node_name;
            &&& connected(s).contains_key(host) <==> s.live.contains_key(host)
            &&& s.live.contains_key(host) ==> connected(s)[host] == s.live[host].label
            &&& reported_volumes(s).contains_key(host) <==> s.live.contains_key(host)
                && s.live[host].state.volume is Some
            &&& reported_volumes(s).contains_key(host) ==> Some(reported_volumes(s)[host])
                == s.live[host].state.volume
            &&& reported_mutes(s).contains_key(host) <==> s.live.contains_key(host)
                && s.live[host].state.muted is Some
            &&& reported_mutes(s).contains_key(host) ==> Some(reported_mutes(s)[host])
                == s.live[host].state.muted
        }),
        (forall|j: int| 0 <= j < s.paired.len() ==> (#[trigger] s.paired[j]).node_name != name)
            ==> !connected(s).contains_key(name) && !reported_volumes(s).contains_key(name)
            && !reported_mutes(s).contains_key(name),
{
    let host = s.paired[i].node_name;
    if s.live.contains_key(host) {
        assert(0 <= i < s.paired.len() && s.paired[i].node_name == host);
    }
}

/// What is sent to a host goes to its own connection, and nothing is sent to one that
/// is not connected.
pub proof fn law_commands_go_to_their_host(s: AgentsView, name: Seq<char>, msg: DaemonMsgView)
    ensures
        command(s, name, msg) is Some <==> s.live.contains_key(name),
        s.live.contains_key(name) ==> command(s, name, msg) == Some((s.live[name].conn, msg)),
{
}

proof fn lemma_named(p: Seq<PairedView>, q: Seq<PendingView>, name: Seq<char>)
    ensures
        paired_named(p, name) is Some <==> exists|i: int|
            0 <= i < p.len() && (#[trigger] p[i]).node_name == name,
        paired_named(p, name) is Some ==> paired_named(p, name)->0.node_name == name && p.contains(
            paired_named(p, name)->0,
        ),
        pending_named(q, name) is Some <==> exists|i: int|
            0 <= i < q.len() && (#[trigger] q[i]).node_name == name,
        pending_named(q, name) is Some ==> pending_named(q, name)->0.node_name == name
            && q.contains(pending_named(q, name)->0),
    decreases p.len() + q.len(),
{
    if p.len() > 0 {
        let rest = p.skip(1);
        lemma_named(rest, q, name);
        assert(p.contains(p[0]));
        assert forall|i: int| 0 <= i < rest.len() implies #[trigger] rest[i] == p[i + 1] by {}
        if paired_named(rest, name) is Some {
            let a = paired_named(rest, name)->0;
            let i = choose|i: int| 0 <= i < rest.len() && rest[i] == a;
            assert(p[i + 1] == a);
        }
        if exists|i: int| 0 <= i < p.len() && (#[trigger] p[i]).node_name == name {
            let i = choose|i: int| 0 <= i < p.len() && (#[trigger] p[i]).node_name == name;
            if i > 0 {
                assert(rest[i - 1].node_name == name);
            }
        }
    } else if q.len() > 0 {
        let rest = q.skip(1);
        lemma_named(p, rest, name);
        assert(q.contains(q[0]));
        assert forall|i: int| 0 <= i < rest.len() implies #[trigger] rest[i] == q[i + 1] by {}
        if pending_named(rest, name) is Some {
            let a = pending_named(rest, name)->0;
            let i = choose|i: int| 0 <= i < rest.len() && rest[i] == a;
            assert(q[i + 1] == a);
        }
        if exists|i: int| 0 <= i < q.len() && (#[trigger] q[i]).node_name == name {
            let i = choose|i: int| 0 <= i < q.len() && (#[trigger] q[i]).node_name == name;
            if i > 0 {
                assert(rest[i - 1].node_name == name);
            }
        }
    }
}

/// The identity behind a node name is that of a host which is listed under it; one
/// is found wherever there is one, and an approved host comes before one that asks.
pub proof fn law_a_node_name_leads_to_its_host(s: AgentsView, name: Seq<char>)
    ensures
        ({
            let found = identity_at(s, name);
            let approved = exists|i: int|
                0 <= i < s.paired.len() && (#[trigger] s.paired[i]).node_name == name;
            let asking = exists|i: int|
                0 <= i < s.pending.len() && (#[trigger] s.pending[i]).node_name == name;
            &&& found is Some <==> approved || asking
            &&& approved ==> exists|i: int|
                0 <= i < s.paired.len() && (#[trigger] s.paired[i]).node_name == name
                    && s.paired[i].identity == found->0
            &&& !approved && asking ==> exists|i: int|
                0 <= i < s.pending.len() && (#[trigger] s.pending[i]).node_name == name
                    && s.pending[i].identity == found->0
        }),
{
    lemma_named(s.paired, s.pending, name);
    if paired_named(s.paired, name) is Some {
        let a = paired_named(s.paired, name)->0;
        let i = choose|i: int| 0 <= i < s.paired.len() && s.paired[i] == a;
        assert(s.paired[i].node_name == name && s.paired[i].identity == a.identity);
    } else if pending_named(s.pending, name) is Some {
        let a = pending_named(s.pending, name)->0;
        let i = choose|i: int| 0 <= i < s.pending.len() && s.pending[i] == a;
        assert(s.pending[i].node_name == name && s.pending[i].identity == a.identity);
    }
}

/// Once the connection of a host that asks is gone, no request of that identity is
/// left, and every other request is.
pub proof fn law_a_dropped_request_is_gone(p: Seq<PendingView>, identity: Seq<char>)
    ensures
        forall|i: int|
            0 <= i < other_pending(p, identity).len() ==> (#[trigger] other_pending(
                p,
                identity,
            )[i]).identity != identity && p.contains(other_pending(p, identity)[i]),
        forall|i: int|
            0 <= i < p.len() && (#[trigger] p[i]).identity != identity ==> other_pending(
                p,
                identity,
            ).contains(p[i]),
{
    lemma_other_pending(p, identity);
}

/// A new host is named after its host name and user where no other host has that
/// name, and one that was approved keeps its name, whatever it is called now.
pub proof fn law_names_are_given_by_host_and_user(
    s: AgentsView,
    identity: Seq<char>,
    hostname: Seq<char>,
    user: Seq<char>,
    suffix: Seq<u8>,
)
    ensures
        ({
            let name = name_for(s, identity, hostname, user, suffix);
            let plain = PWSINK_DEV_PREFIX@ + slug(hostname) + "_"@ + slug(user);
            let known = exists|i: int|
                0 <= i < s.paired.len() && (#[trigger] s.paired[i]).identity == identity;
            let other = exists|i: int|
                0 <= i < s.pending.len() && (#[trigger] s.pending[i]).identity != identity
                    && s.pending[i].node_name == plain;
            let approved = exists|i: int|
                0 <= i < s.paired.len() && (#[trigger] s.paired[i]).node_name == plain;
            &&& known ==> exists|i: int|
                0 <= i < s.paired.len() && (#[trigger] s.paired[i]).identity == identity
                    && s.paired[i].node_name == name
            &&& !known && !approved && !other ==> name == plain
        }),
{
    lemma_paired_of(s.paired, identity);
    if paired_of(s.paired, identity) is Some {
        let a = paired_of(s.paired, identity)->0;
        let i = choose|i: int| 0 <= i < s.paired.len() && s.paired[i] == a;
        assert(s.paired[i].identity == identity);
    }
}

/// A code that is not six digits of the kind that codes are made of is not taken: a
/// host that asks for the first time is shown with the new one then, in upper case.
pub proof fn law_odd_codes_are_not_taken(
    s: AgentsView,
    c: ClaimView,
    conn: u64,
    minted: Seq<u8>,
    suffix: Seq<u8>,
    i: int,
)
    requires
        c.protocol == PROTOCOL_VERSION,
        c.token is None,
        minted.len() > 0,
        forall|k: int|
            0 <= k < s.pending.len() ==> (#[trigger] s.pending[k]).identity != identity_of(
                c.machine_id,
                c.user,
            ),
        c.pair_code is None || trimmed(c.pair_code->0).len() != 6 || (0 <= i < 6 && !('0'
            <= trimmed(c.pair_code->0)[i] <= '9') && !('A' <= trimmed(c.pair_code->0)[i] <= 'F')),
    ensures
        hello_spec(s, c, conn, minted, suffix).1 is Pending,
        hello_spec(s, c, conn, minted, suffix).0.pending.last().code == upper_all(
            hex_bytes(minted),
        ),
{
    let identity = identity_of(c.machine_id, c.user);
    lemma_pending_of_skip(s.pending, identity, s.pending.len() as int);
    if c.pair_code is Some {
        let code = trimmed(c.pair_code->0);
        if code.len() == 6 {
            assert(!code_char(code[i]));
        }
        assert(pair_code(c.pair_code) is None);
    }
}

/// Where another host has the plain name, as much of the machine's id is added as tells
/// the two apart: six characters where that is enough, else twelve, else all of it.
pub proof fn law_machines_tell_hosts_apart(
    s: AgentsView,
    identity: Seq<char>,
    hostname: Seq<char>,
    user: Seq<char>,
    suffix: Seq<u8>,
)
    requires
        paired_of(s.paired, identity) is None,
        taken(s, identity, base_name(hostname, user)),
    ensures
        ({
            let plain = base_name(hostname, user) + "_"@;
            let machine = machine_part(identity);
            let name = name_for(s, identity, hostname, user, suffix);
            let six = machine.len() >= 6 && !taken(s, identity, plain + machine.take(6));
            let twelve = machine.len() >= 12 && !taken(s, identity, plain + machine.take(12));
            &&& six ==> name == plain + machine.take(6)
            &&& !six && twelve ==> name == plain + machine.take(12)
            &&& !six && !twelve && machine.len() > 0 && !taken(s, identity, plain + machine) ==> name
                == plain + machine
        }),
{
    let machine = machine_part(identity);
    assert(machine.take(machine.len() as int) =~= machine);
}

/// A name is taken exactly where an approved host has it, or another one that asks.
pub proof fn law_a_name_is_taken_by_others(s: AgentsView, identity: Seq<char>, name: Seq<char>)
    ensures
        forall|i: int|
            0 <= i < s.paired.len() && (#[trigger] s.paired[i]).node_name == name ==> taken(
                s,
                identity,
                name,
            ),
        forall|i: int|
            0 <= i < s.pending.len() && (#[trigger] s.pending[i]).node_name == name
                && s.pending[i].identity != identity ==> taken(s, identity, name),
        taken(s, identity, name) ==> (exists|i: int|
            0 <= i < s.paired.len() && (#[trigger] s.paired[i]).node_name == name) || (exists|i: int|
            0 <= i < s.pending.len() && (#[trigger] s.pending[i]).node_name == name
                && s.pending[i].identity != identity),
{
}

/// A host is welcomed to the session that is made for it, with the playout delay that
/// is set for it.
pub proof fn law_a_welcome_names_the_session(node_name: Seq<char>, jitter_ms: u16)
    ensures
        ({
            let w = welcome_spec(node_name, jitter_ms);
            &&& w is Welcome
            &&& w->session_name == session_name(node_name)
            &&& w->jitter_ms == Some(jitter_ms as u32)
            &&& w->ifname is None
            &&& w->keepalive_secs == 15
        }),
{
}

} // verus!
