//! The running groups and what keeps them as the routes want them.
//!
//! The reconciler owns no connection: a handle is a number, and every operation
//! gives back what is to be done. A pass over the groups alternates between
//! deciding and doing, so it is a machine: [`Pass::next`] takes what the last
//! action came to and gives the next actions.
//!
//! Times are in milliseconds.

use crate::announce::{announce_sink_name, dialed, dialed_established, dialed_session_established, free_pairs, law_given_ports_are_free, law_given_ports_keep_their_distance, law_no_free_port_is_passed_over, next_free_pwsink_ports, no_transport, no_transport_reason, sink_name, supports_on_demand_announce, AnnounceTransport, TransportView, PWSINK_BASE_PORT};
use crate::devices::{Ap2Device, Ip};
use crate::groups::{ap2_dials, copy_names, dials, Ap2Dial, Ap2Member, Member, KEY_SEP};
use crate::maps::{in_order, lemma_in_order, lemma_push_contains, lemma_set_in_order, lemma_take_next, sorted_names, NameMap, NameSet};
use crate::names::{kind_human, kind_of, kind_or_output, kind_prefix, OutputKind, AP2_DEV_PREFIX, PWSINK_DEV_PREFIX, SENDSPIN_DEV_PREFIX};
use crate::routing::{routes, source_set_of, sources_of, Route, RoutingLink};
use crate::sendspin::StreamPolicy;
use crate::targets::{is_established, PwSinkLiveness};
use crate::text::{joined2, joined3, same, split, split_spec, views};
use vstd::prelude::*;

verus! {

/// Ports of the groups' servers are given out from here on.
pub const GROUP_BASE_PORT: u16 = 8930;

/// The source of an alignment's own group. No node has this name.
pub const ALIGN_HOLD_SOURCE: &'static str = "align-hold";

/// A group that is running.
pub struct RunningGroup {
    /// The sink that is the group's clock.
    pub anchor_node_name: String,
    pub anchor_node_id: u32,
    pub port: u16,
    /// The sendspin server, where it runs.
    pub server: Option<u64>,
    /// The sendspin devices in the group.
    pub server_devices: Vec<String>,
    /// What the server was last told to dial.
    pub server_members: Vec<Member>,
    /// What the server was started with.
    pub server_codec: &'static str,
    pub server_send_ahead_us: i64,
    /// Devices whose own connection is to be renewed.
    pub force_device_reconnect: NameSet,
    /// The AirPlay senders, where they run, and what they were started for.
    pub ap2_sender: Option<u64>,
    pub ap2_members: Vec<String>,
    pub ap2_rate: u32,
    /// The senders to remote hosts, where they run, and what they were started for.
    pub pwsink_server: Option<u64>,
    pub pwsink_members: Vec<String>,
    pub pwsink_ports: Vec<u16>,
}

/// The model of a [`RunningGroup`].
#[verifier::ext_equal]
pub ghost struct RunningView {
    pub anchor_node_name: Seq<char>,
    pub anchor_node_id: u32,
    pub port: u16,
    pub server: Option<u64>,
    pub server_devices: Seq<Seq<char>>,
    pub server_members: Seq<Route>,
    pub server_codec: Seq<char>,
    pub server_send_ahead_us: i64,
    pub force_device_reconnect: Set<Seq<char>>,
    pub ap2_sender: Option<u64>,
    pub ap2_members: Seq<Seq<char>>,
    pub ap2_rate: u32,
    pub pwsink_server: Option<u64>,
    pub pwsink_members: Seq<Seq<char>>,
    pub pwsink_ports: Seq<u16>,
}

impl RunningGroup {
    pub open spec fn view(&self) -> RunningView {
        RunningView {
            anchor_node_name: self.anchor_node_name@,
            anchor_node_id: self.anchor_node_id,
            port: self.port,
            server: self.server,
            server_devices: views(self.server_devices@),
            server_members: dials(self.server_members@),
            server_codec: self.server_codec@,
            server_send_ahead_us: self.server_send_ahead_us,
            force_device_reconnect: self.force_device_reconnect@,
            ap2_sender: self.ap2_sender,
            ap2_members: views(self.ap2_members@),
            ap2_rate: self.ap2_rate,
            pwsink_server: self.pwsink_server,
            pwsink_members: views(self.pwsink_members@),
            pwsink_ports: self.pwsink_ports@,
        }
    }
}

/// A sender that keeps a device in no group reachable.
pub struct IdleSender {
    pub sink_node_name: String,
    pub sink_node_id: u32,
    pub port: u16,
    pub server: u64,
}

/// The model of an [`IdleSender`].
pub ghost struct IdleView {
    pub sink_node_name: Seq<char>,
    pub sink_node_id: u32,
    pub port: u16,
    pub server: u64,
}

impl IdleSender {
    pub open spec fn view(&self) -> IdleView {
        IdleView {
            sink_node_name: self.sink_node_name@,
            sink_node_id: self.sink_node_id,
            port: self.port,
            server: self.server,
        }
    }
}

/// The sender of an on-demand session.
#[derive(Clone, Copy, Debug, PartialEq, Eq, Structural)]
pub enum SessionTransport {
    Ap2(u64),
    PwSink { server: u64, control_port: u16 },
}

/// A session that was opened for announcements to an output that is not routed.
pub struct AnnounceSession {
    pub sink_node_name: String,
    pub sink_node_id: u32,
    pub transport: SessionTransport,
    /// When it ends, unless something is played on it.
    pub expires_at: u64,
    /// What each use adds.
    pub linger: u64,
}

/// The model of an [`AnnounceSession`].
pub ghost struct SessionView {
    pub sink_node_name: Seq<char>,
    pub sink_node_id: u32,
    pub transport: SessionTransport,
    pub expires_at: u64,
    pub linger: u64,
}

impl AnnounceSession {
    pub open spec fn view(&self) -> SessionView {
        SessionView {
            sink_node_name: self.sink_node_name@,
            sink_node_id: self.sink_node_id,
            transport: self.transport,
            expires_at: self.expires_at,
            linger: self.linger,
        }
    }
}

/// The running groups, senders and sessions.
pub struct GroupReconciler {
    /// By key.
    pub running: NameMap<RunningGroup>,
    /// By device.
    pub idle_senders: NameMap<IdleSender>,
    /// By output.
    pub announce_sessions: NameMap<AnnounceSession>,
    /// The outputs that an alignment has taken, and its id.
    pub align_hold: Option<(u64, NameSet)>,
    /// The next pass brings every group to the lead that is wanted.
    pub rearm: bool,
    /// Something did not take, and only another pass will mend it.
    pub retry: bool,
}

/// The model of the reconciler.
#[verifier::ext_equal]
pub ghost struct RecView {
    pub running: Map<Seq<char>, RunningView>,
    pub idle: Map<Seq<char>, IdleView>,
    pub sessions: Map<Seq<char>, SessionView>,
    pub hold: Option<(u64, Set<Seq<char>>)>,
    pub rearm: bool,
    pub retry: bool,
}

/// The models of running groups.
pub open spec fn running_views(m: Map<Seq<char>, RunningGroup>) -> Map<Seq<char>, RunningView> {
    m.map_values(|g: RunningGroup| g@)
}

/// The models of idle senders.
pub open spec fn idle_views(m: Map<Seq<char>, IdleSender>) -> Map<Seq<char>, IdleView> {
    m.map_values(|s: IdleSender| s@)
}

/// The models of sessions.
pub open spec fn session_views(m: Map<Seq<char>, AnnounceSession>) -> Map<Seq<char>, SessionView> {
    m.map_values(|s: AnnounceSession| s@)
}

/// What is to be done, in the given order.
pub enum Action {
    /// End the stream of every member of a server, and wait for it.
    StopServer { server: u64 },
    /// End the stream of one member, and wait for it.
    StopDevice { server: u64, fullname: String },
    /// Dial these members, and redial those whose address changed.
    Supervise { server: u64, members: Vec<Member> },
    /// Close the sessions of AirPlay senders.
    DropAp2 { sender: u64 },
    /// Close the sessions of senders to remote hosts.
    DropPwSink { server: u64 },
    /// Forget the rate that clips for an output are brought to.
    ClearRate { output: String },
    DestroySink { node_id: u32 },
    /// Link a source into a sink, as far as that is not done yet.
    Link { source: String, sink: String },
    /// Create a sink and wait for it. Comes to [`Event::Node`], or to
    /// [`Event::Unreachable`] where the graph could not be asked.
    CreateSink { node_name: String },
    /// Start a sendspin server. Comes to [`Event::Started`].
    StartServer {
        sink_node_name: String,
        display: String,
        port: u16,
        node_id: u32,
        members: Vec<Member>,
        send_ahead_us: i64,
        policy: StreamPolicy,
        codec: &'static str,
    },
    /// Start AirPlay senders. Comes to [`Event::Started`].
    StartAp2 { members: Vec<Ap2Member>, node_id: u32, rate: u32 },
    /// Start senders to remote hosts. Comes to [`Event::Started`].
    StartPwSink { members: Vec<PwSinkMember>, node_id: u32 },
}

/// One remote host to send to.
pub struct PwSinkMember {
    pub node_name: String,
    pub control_port: u16,
    pub playout_ms: u16,
}

/// The model of a [`PwSinkMember`].
pub type PwSinkDial = (Seq<char>, u16, u16);

impl PwSinkMember {
    pub open spec fn view(&self) -> PwSinkDial {
        (self.node_name@, self.control_port, self.playout_ms)
    }
}

/// The models of hosts to send to.
pub open spec fn pwsink_dials(s: Seq<PwSinkMember>) -> Seq<PwSinkDial> {
    s.map_values(|m: PwSinkMember| m@)
}

/// The model of an [`Action`].
pub ghost enum ActionView {
    StopServer { server: u64 },
    StopDevice { server: u64, fullname: Seq<char> },
    Supervise { server: u64, members: Seq<Route> },
    DropAp2 { sender: u64 },
    DropPwSink { server: u64 },
    ClearRate { output: Seq<char> },
    DestroySink { node_id: u32 },
    Link { source: Seq<char>, sink: Seq<char> },
    CreateSink { node_name: Seq<char> },
    StartServer {
        sink_node_name: Seq<char>,
        display: Seq<char>,
        port: u16,
        node_id: u32,
        members: Seq<Route>,
        send_ahead_us: i64,
        policy: StreamPolicy,
        codec: Seq<char>,
    },
    StartAp2 { members: Seq<Ap2Dial>, node_id: u32, rate: u32 },
    StartPwSink { members: Seq<PwSinkDial>, node_id: u32 },
}

impl Action {
    pub open spec fn view(&self) -> ActionView {
        match *self {
            Action::StopServer { server } => ActionView::StopServer { server },
            Action::StopDevice { server, fullname } => ActionView::StopDevice {
                server,
                fullname: fullname@,
            },
            Action::Supervise { server, members } => ActionView::Supervise {
                server,
                members: dials(members@),
            },
            Action::DropAp2 { sender } => ActionView::DropAp2 { sender },
            Action::DropPwSink { server } => ActionView::DropPwSink { server },
            Action::ClearRate { output } => ActionView::ClearRate { output: output@ },
            Action::DestroySink { node_id } => ActionView::DestroySink { node_id },
            Action::Link { source, sink } => ActionView::Link { source: source@, sink: sink@ },
            Action::CreateSink { node_name } => ActionView::CreateSink { node_name: node_name@ },
            Action::StartServer {
                sink_node_name,
                display,
                port,
                node_id,
                members,
                send_ahead_us,
                policy,
                codec,
            } => ActionView::StartServer {
                sink_node_name: sink_node_name@,
                display: display@,
                port,
                node_id,
                members: dials(members@),
                send_ahead_us,
                policy,
                codec: codec@,
            },
            Action::StartAp2 { members, node_id, rate } => ActionView::StartAp2 {
                members: ap2_dials(members@),
                node_id,
                rate,
            },
            Action::StartPwSink { members, node_id } => ActionView::StartPwSink {
                members: pwsink_dials(members@),
                node_id,
            },
        }
    }
}

/// The models of a list of actions.
pub open spec fn acts(s: Seq<Action>) -> Seq<ActionView> {
    s.map_values(|a: Action| a@)
}

/// What the last action came to.
#[derive(Clone, Copy, Debug, PartialEq, Eq, Structural)]
pub enum Event {
    /// Nothing that matters.
    Done,
    /// The graph could not be asked.
    Unreachable,
    /// The sink's node, where it was created and appeared.
    Node(Option<u32>),
    /// The handle, where the start succeeded.
    Started(Option<u64>),
}

pub(crate) fn act(list: &mut Vec<Action>, a: Action)
    ensures
        acts(final(list)@) == acts(old(list)@).push(a@),
{
    let ghost before = acts(list@);
    list.push(a);
    assert(acts(list@) =~= before.push(a@));
}

pub(crate) fn no_actions() -> (r: Vec<Action>)
    ensures
        acts(r@) == Seq::<ActionView>::empty(),
{
    let r: Vec<Action> = Vec::new();
    assert(acts(r@) =~= Seq::<ActionView>::empty());
    r
}

// ---- the sendspin server of a group ---------------------------------------------

/// What is to become of a group's sendspin server.
#[derive(Clone, Copy, Debug, PartialEq, Eq, Structural)]
pub enum ServerAction {
    /// Nothing is routed and nothing runs.
    Idle,
    /// It keeps running; members come and go on it.
    KeepRunning,
    /// It is started, after ending the one that runs.
    Start,
    /// It is ended.
    Stop,
}

/// What decides it.
pub struct SendspinServerState {
    /// Some sendspin device is routed to the group.
    pub routed: bool,
    pub have_server: bool,
    /// The codec or the lead is another one.
    pub config_changed: bool,
}

/// What is to become of the server: who its members are does not matter.
pub open spec fn server_action(s: SendspinServerState) -> ServerAction {
    if !s.routed {
        if s.have_server {
            ServerAction::Stop
        } else {
            ServerAction::Idle
        }
    } else if !s.have_server || s.config_changed {
        ServerAction::Start
    } else {
        ServerAction::KeepRunning
    }
}

/// What is to become of a group's sendspin server.
pub fn sendspin_server_action(s: SendspinServerState) -> (r: ServerAction)
    ensures
        r == server_action(s),
{
    match (s.routed, s.have_server) {
        (false, false) => ServerAction::Idle,
        (false, true) => ServerAction::Stop,
        (true, false) => ServerAction::Start,
        (true, true) => if s.config_changed {
            ServerAction::Start
        } else {
            ServerAction::KeepRunning
        },
    }
}

/// Whether every member has to start anew: the codec is another one, or the lead
/// is higher. A lower lead is not worth a reconnect.
pub open spec fn config_changed(
    prev_codec: Seq<char>,
    prev_lead_us: i64,
    want_codec: Seq<char>,
    want_lead_us: i64,
) -> bool {
    want_codec != prev_codec || want_lead_us > prev_lead_us
}

/// Whether every member has to start anew.
pub fn sendspin_config_changed(
    prev_codec: &str,
    prev_lead_us: i64,
    want_codec: &str,
    want_lead_us: i64,
) -> (r: bool)
    ensures
        r == config_changed(prev_codec@, prev_lead_us, want_codec@, want_lead_us),
{
    !same(want_codec, prev_codec) || want_lead_us > prev_lead_us
}

/// Whether an explicit request to bring the lead to what is wanted makes every
/// member start anew: only where the lead is another one.
pub fn sendspin_lead_rearm(rearm: bool, running_us: i64, wanted_us: i64) -> (r: bool)
    ensures
        r == (rearm && running_us != wanted_us),
{
    rearm && running_us != wanted_us
}

/// Who plays in a group does not decide over its server: with the same codec and a
/// lead that suffices, it keeps running.
pub proof fn law_membership_does_not_restart_the_server(
    codec: Seq<char>,
    running_lead: i64,
    wanted_lead: i64,
)
    requires
        wanted_lead <= running_lead,
    ensures
        server_action(
            SendspinServerState {
                routed: true,
                have_server: true,
                config_changed: config_changed(codec, running_lead, codec, wanted_lead),
            },
        ) == ServerAction::KeepRunning,
{
}

// ---- the alignment hold and the intent --------------------------------------------

/// The hold once the alignment `id` took these outputs. Taking none is no hold.
pub open spec fn hold_set(id: u64, taken: Set<Seq<char>>) -> Option<(u64, Set<Seq<char>>)> {
    if taken == Set::<Seq<char>>::empty() {
        None
    } else {
        Some((id, taken))
    }
}

/// The hold once the alignment `id` ended.
pub open spec fn hold_cleared(hold: Option<(u64, Set<Seq<char>>)>, id: u64) -> Option<
    (u64, Set<Seq<char>>),
> {
    match hold {
        Some((held, _)) => if held == id {
            None
        } else {
            hold
        },
        None => None,
    }
}

/// The intent as a pass sees it: an alignment's outputs are cut out of what fed
/// them and fed by a source of its own.
pub open spec fn effective(hold: Option<(u64, Set<Seq<char>>)>, intent: Seq<Route>) -> Seq<Route> {
    match hold {
        None => intent,
        Some((_, held)) => intent.filter(|l: Route| !held.contains(l.1)) + in_order(held).map_values(
            |o: Seq<char>| (ALIGN_HOLD_SOURCE@, o),
        ),
    }
}

/// A read-only view of one running group.
pub struct GroupSnapshot {
    pub sources: Vec<String>,
    pub anchor_node_id: u32,
    pub sendspin_members: Vec<String>,
    pub ap2_members: Vec<String>,
}

/// The model of a [`GroupSnapshot`].
pub ghost struct SnapshotView {
    pub sources: Seq<Seq<char>>,
    pub anchor_node_id: u32,
    pub sendspin_members: Seq<Seq<char>>,
    pub ap2_members: Seq<Seq<char>>,
}

impl GroupSnapshot {
    pub open spec fn view(&self) -> SnapshotView {
        SnapshotView {
            sources: views(self.sources@),
            anchor_node_id: self.anchor_node_id,
            sendspin_members: views(self.sendspin_members@),
            ap2_members: views(self.ap2_members@),
        }
    }
}

/// The view of the group `key`.
pub open spec fn snapshot_of(key: Seq<char>, g: RunningView) -> SnapshotView {
    SnapshotView {
        sources: split_spec(key, KEY_SEP),
        anchor_node_id: g.anchor_node_id,
        sendspin_members: g.server_devices,
        ap2_members: g.ap2_members,
    }
}

/// The first of the groups, in the order of `keys`, that has the device.
pub open spec fn holder_of(
    keys: Seq<Seq<char>>,
    running: Map<Seq<char>, RunningView>,
    device: Seq<char>,
) -> Option<Seq<char>>
    decreases keys.len(),
{
    if keys.len() == 0 {
        None
    } else if running[keys[0]].server_devices.contains(device) {
        Some(keys[0])
    } else {
        holder_of(keys.skip(1), running, device)
    }
}

/// The leads of the servers that run, in the order of `keys`.
pub open spec fn leads_of(keys: Seq<Seq<char>>, running: Map<Seq<char>, RunningView>) -> Seq<i64>
    decreases keys.len(),
{
    if keys.len() == 0 {
        Seq::empty()
    } else {
        let before = leads_of(keys.drop_last(), running);
        let g = running[keys.last()];
        if g.server is Some {
            before.push(g.server_send_ahead_us)
        } else {
            before
        }
    }
}

pub(crate) fn copy_members(v: &Vec<Member>) -> (r: Vec<Member>)
    ensures
        dials(r@) == dials(v@),
{
    let mut out: Vec<Member> = Vec::new();
    let mut i: usize = 0;
    while i < v.len()
        invariant
            i <= v@.len(),
            out@.len() == i,
            forall|j: int| 0 <= j < i ==> (#[trigger] out@[j])@ == v@[j]@,
        decreases v.len() - i,
    {
        out.push(v[i].copy());
        i += 1;
    }
    assert(dials(out@) =~= dials(v@));
    out
}

pub(crate) fn has_name(v: &Vec<String>, name: &str) -> (r: bool)
    ensures
        r == views(v@).contains(name@),
{
    let mut i: usize = 0;
    while i < v.len()
        invariant
            i <= v@.len(),
            forall|j: int| 0 <= j < i ==> #[trigger] views(v@)[j] != name@,
        decreases v.len() - i,
    {
        if same(&v[i], name) {
            assert(views(v@)[i as int] == name@);
            return true;
        }
        i += 1;
    }
    false
}

impl GroupReconciler {
    pub open spec fn view(&self) -> RecView {
        RecView {
            running: running_views(self.running@),
            idle: idle_views(self.idle_senders@),
            sessions: session_views(self.announce_sessions@),
            hold: match self.align_hold {
                Some((id, held)) => Some((id, held@)),
                None => None,
            },
            rearm: self.rearm,
            retry: self.retry,
        }
    }

    /// Nothing runs yet.
    pub fn new() -> (r: Self)
        ensures
            r@ == (RecView {
                running: Map::empty(),
                idle: Map::empty(),
                sessions: Map::empty(),
                hold: None,
                rearm: false,
                retry: false,
            }),
    {
        let r = GroupReconciler {
            running: NameMap::new(),
            idle_senders: NameMap::new(),
            announce_sessions: NameMap::new(),
            align_hold: None,
            rearm: false,
            retry: false,
        };
        proof {
            assert(r@.running =~= Map::<Seq<char>, RunningView>::empty());
            assert(r@.idle =~= Map::<Seq<char>, IdleView>::empty());
            assert(r@.sessions =~= Map::<Seq<char>, SessionView>::empty());
        }
        r
    }

    /// Whether the last pass left something that only another one will mend.
    pub fn retry_wanted(&self) -> (r: bool)
        ensures
            r == self@.retry,
    {
        self.retry
    }

    /// Takes outputs for the alignment `id`, in place of any before. Taking none is
    /// no hold.
    pub fn set_align_hold(&mut self, id: u64, outputs: NameSet)
        ensures
            final(self)@ == (RecView {
                hold: hold_set(id, outputs@),
                ..old(self)@
            }),
    {
        if outputs.is_empty() {
            assert(outputs@ =~= Set::<Seq<char>>::empty());
            self.align_hold = None;
        } else {
            self.align_hold = Some((id, outputs));
        }
    }

    /// Ends the alignment `id`; a newer one stays.
    pub fn clear_align_hold(&mut self, id: u64)
        ensures
            final(self)@ == (RecView {
                hold: hold_cleared(old(self)@.hold, id),
                ..old(self)@
            }),
    {
        let ours = match &self.align_hold {
            Some((held, _)) => *held == id,
            None => false,
        };
        if ours {
            self.align_hold = None;
        }
    }

    /// The outputs that an alignment has taken.
    pub fn align_hold_outputs(&self) -> (r: NameSet)
        ensures
            r@ == match self@.hold {
                Some((_, held)) => held,
                None => Set::empty(),
            },
    {
        match &self.align_hold {
            Some((_, held)) => held.copy(),
            None => NameSet::new(),
        }
    }

    /// The intent as a pass sees it.
    pub fn effective_intent(&self, intent: Vec<RoutingLink>) -> (r: Vec<RoutingLink>)
        ensures
            routes(r@) == effective(self@.hold, routes(intent@)),
    {
        let held = match &self.align_hold {
            Some((_, held)) => held,
            None => {
                return intent;
            },
        };
        let mut out: Vec<RoutingLink> = Vec::new();
        let ghost all = routes(intent@);
        let ghost keep = |l: Route| !held@.contains(l.1);
        let mut i: usize = 0;
        proof {
            reveal(Seq::filter);
            assert(routes(out@) =~= all.take(0).filter(keep));
        }
        while i < intent.len()
            invariant
                i <= intent@.len(),
                all == routes(intent@),
                keep == (|l: Route| !held@.contains(l.1)),
                routes(out@) == all.take(i as int).filter(keep),
            decreases intent.len() - i,
        {
            let ghost before = routes(out@);
            proof {
                reveal(Seq::filter);
                assert(all.take(i + 1).drop_last() =~= all.take(i as int));
            }
            if !held.contains(&intent[i].output) {
                out.push(intent[i].copy());
                assert(routes(out@) =~= before.push(all[i as int]));
            }
            i += 1;
        }
        assert(all.take(i as int) =~= all);
        let ghost kept = routes(out@);
        let n: usize = held.len();
        let ghost names = held.names();
        let ghost fed = names.map_values(|o: Seq<char>| (ALIGN_HOLD_SOURCE@, o));
        proof {
            lemma_in_order(names);
        }
        let mut k: usize = 0;
        proof {
            assert(kept + fed.take(0) =~= kept);
        }
        while k < n
            invariant
                k <= n,
                n == names.len(),
                names == held.names(),
                fed == names.map_values(|o: Seq<char>| (ALIGN_HOLD_SOURCE@, o)),
                routes(out@) == kept + fed.take(k as int),
            decreases n - k,
        {
            let ghost before = routes(out@);
            let output = held.at(k).clone();
            out.push(RoutingLink { source: ALIGN_HOLD_SOURCE.to_string(), output });
            proof {
                assert(routes(out@) =~= before.push((ALIGN_HOLD_SOURCE@, names[k as int])));
                assert(fed.take(k + 1) =~= fed.take(k as int).push(fed[k as int]));
                assert(routes(out@) =~= kept + fed.take(k + 1));
            }
            k += 1;
        }
        assert(fed.take(n as int) =~= fed);
        out
    }

    /// Marks a device so that the next pass renews its own connection, and only
    /// that. True where a running group has it.
    pub fn force_device_reconnect(&mut self, device: &str) -> (r: bool)
        ensures
            ({
                let before = old(self)@;
                match holder_of(in_order(before.running.dom()), before.running, device@) {
                    Some(key) => r && final(self)@ == (RecView {
                        running: before.running.insert(
                            key,
                            RunningView {
                                force_device_reconnect:
                                    before.running[key].force_device_reconnect.insert(device@),
                                ..before.running[key]
                            },
                        ),
                        ..before
                    }),
                    None => !r && final(self)@ == before,
                }
            }),
    {
        let ghost before = self@;
        let keys = self.running.keys();
        let ghost names = views(keys@);
        proof {
            lemma_in_order(names);
            assert(names.to_set() =~= before.running.dom());
            assert(names.skip(0) =~= names);
        }
        let mut i: usize = 0;
        while i < keys.len()
            invariant
                i <= keys@.len(),
                names == views(keys@),
                before == old(self)@,
                self@ == before,
                names == in_order(before.running.dom()),
                names.to_set() == before.running.dom(),
                holder_of(names, before.running, device@) == holder_of(
                    names.skip(i as int),
                    before.running,
                    device@,
                ),
            decreases keys.len() - i,
        {
            proof {
                assert(names.skip(i as int)[0] == names[i as int]);
                assert(names.skip(i as int).skip(1) =~= names.skip(i + 1));
                assert(names.to_set().contains(names[i as int]));
            }
            let has = match self.running.get(&keys[i]) {
                Some(g) => has_name(&g.server_devices, device),
                None => false,
            };
            if has {
                match self.running.remove(&keys[i]) {
                    Some(mut g) => {
                        g.force_device_reconnect.insert(device.to_string());
                        self.running.insert(keys[i].clone(), g);
                        proof {
                            let k = names[i as int];
                            assert(g@ =~= (RunningView {
                                force_device_reconnect:
                                    before.running[k].force_device_reconnect.insert(device@),
                                ..before.running[k]
                            }));
                            assert(self@.running =~= before.running.insert(k, g@));
                        }
                    },
                    None => {},
                }
                return true;
            }
            i += 1;
        }
        false
    }

    /// A view of every running group, in the order of the keys.
    pub fn snapshot(&self) -> (r: Vec<GroupSnapshot>)
        ensures
            r@.map_values(|s: GroupSnapshot| s@) == in_order(self@.running.dom()).map_values(
                |k: Seq<char>| snapshot_of(k, self@.running[k]),
            ),
    {
        let mut out: Vec<GroupSnapshot> = Vec::new();
        let n: usize = self.running.len();
        let ghost names = self.running.names();
        proof {
            lemma_in_order(names);
            assert(names.to_set() =~= self@.running.dom());
        }
        let mut i: usize = 0;
        while i < n
            invariant
                i <= n,
                n == names.len(),
                names == self.running.names(),
                out@.len() == i,
                forall|j: int|
                    0 <= j < i ==> (#[trigger] out@[j])@ == snapshot_of(
                        names[j],
                        self@.running[names[j]],
                    ),
            decreases n - i,
        {
            let key = self.running.key_at(i);
            let g = self.running.value_at(i);
            out.push(
                GroupSnapshot {
                    sources: split(key, KEY_SEP),
                    anchor_node_id: g.anchor_node_id,
                    sendspin_members: copy_names(&g.server_devices),
                    ap2_members: copy_names(&g.ap2_members),
                },
            );
            i += 1;
        }
        assert(out@.map_values(|s: GroupSnapshot| s@) =~= names.map_values(
            |k: Seq<char>| snapshot_of(k, self@.running[k]),
        ));
        out
    }

    /// The leads that are in force: those of the servers that run.
    pub fn running_sendspin_leads(&self) -> (r: Vec<i64>)
        ensures
            r@ == leads_of(in_order(self@.running.dom()), self@.running),
    {
        let mut out: Vec<i64> = Vec::new();
        let n: usize = self.running.len();
        let ghost names = self.running.names();
        proof {
            lemma_in_order(names);
            assert(names.to_set() =~= self@.running.dom());
        }
        let mut i: usize = 0;
        while i < n
            invariant
                i <= n,
                n == names.len(),
                names == self.running.names(),
                out@ == leads_of(names.take(i as int), self@.running),
            decreases n - i,
        {
            proof {
                assert(names.take(i + 1).drop_last() =~= names.take(i as int));
            }
            let key = self.running.key_at(i);
            let g = self.running.value_at(i);
            if g.server.is_some() {
                out.push(g.server_send_ahead_us);
            }
            i += 1;
        }
        assert(names.take(n as int) =~= names);
        out
    }

    /// Makes the next pass bring every group to the lead that is wanted. Says how
    /// many servers run that this may start anew.
    pub fn rearm_lead(&mut self) -> (r: usize)
        ensures
            final(self)@ == (RecView { rearm: true, ..old(self)@ }),
            r == leads_of(in_order(old(self)@.running.dom()), old(self)@.running).len(),
    {
        let n: usize = self.running_sendspin_leads().len();
        self.rearm = true;
        n
    }
}

/// An alignment takes its outputs exclusively and in one group: nothing feeds them
/// but its own source, and what feeds every other output stays.
pub proof fn law_hold_is_exclusive(
    id: u64,
    taken: Seq<Seq<char>>,
    intent: Seq<Route>,
    output: Seq<char>,
)
    requires
        sorted_names(taken),
    ensures
        taken.contains(output) ==> sources_of(
            effective(Some((id, taken.to_set())), intent),
            output,
        ) == set![ALIGN_HOLD_SOURCE@],
        !taken.contains(output) ==> sources_of(
            effective(Some((id, taken.to_set())), intent),
            output,
        ) == sources_of(intent, output),
{
    broadcast use vstd::seq_lib::group_filter_ensures;

    lemma_in_order(taken);
    let held = taken.to_set();
    let keep = |l: Route| !held.contains(l.1);
    let kept = intent.filter(keep);
    let fed = taken.map_values(|o: Seq<char>| (ALIGN_HOLD_SOURCE@, o));
    let all = effective(Some((id, held)), intent);
    assert(all == kept + fed);
    assert forall|s: Seq<char>| #[trigger] sources_of(all, output).contains(s) <==> if taken.contains(
        output,
    ) {
        s == ALIGN_HOLD_SOURCE@
    } else {
        sources_of(intent, output).contains(s)
    } by {
        let l = (s, output);
        if taken.contains(output) {
            if all.contains(l) {
                let k = choose|k: int| 0 <= k < all.len() && all[k] == l;
                if k < kept.len() {
                    assert(keep(kept[k]));
                } else {
                    assert(all[k] == fed[k - kept.len()]);
                }
            }
            if s == ALIGN_HOLD_SOURCE@ {
                let k = choose|k: int| 0 <= k < taken.len() && taken[k] == output;
                assert(fed[k] == l);
                assert(all[kept.len() + k] == l);
            }
        } else {
            if all.contains(l) {
                let k = choose|k: int| 0 <= k < all.len() && all[k] == l;
                if k < kept.len() {
                    assert(kept[k] == l);
                    assert(kept.contains(l));
                    crate::routing::lemma_filter_is_part(intent, keep, l);
                } else {
                    assert(all[k] == fed[k - kept.len()]);
                    assert(taken.contains(taken[k - kept.len()]));
                }
            }
            if intent.contains(l) {
                let k = choose|k: int| 0 <= k < intent.len() && intent[k] == l;
                assert(keep(intent[k]));
                assert(kept.contains(l));
                let m = choose|m: int| 0 <= m < kept.len() && kept[m] == l;
                assert(all[m] == l);
            }
        }
    }
    if taken.contains(output) {
        assert(sources_of(all, output) =~= set![ALIGN_HOLD_SOURCE@]);
    } else {
        assert(sources_of(all, output) =~= sources_of(intent, output));
    }
}

/// Ending an alignment gives every route back as it was stored, whatever it had
/// taken, and ends no other alignment.
pub proof fn law_a_released_hold_gives_the_routes_back(
    id: u64,
    taken: Set<Seq<char>>,
    other: u64,
    intent: Seq<Route>,
)
    ensures
        effective(hold_cleared(hold_set(id, taken), id), intent) == intent,
        other != id ==> hold_cleared(hold_set(id, taken), other) == hold_set(id, taken),
{
}

// ---- announcements ------------------------------------------------------------------

/// Whether a sender streams to the output, so that a clip put on it is heard.
pub open spec fn live_sender(
    r: RecView,
    output: Seq<char>,
    ap2_connected: Set<Seq<char>>,
    pwsink_established: bool,
) -> bool {
    match dialed_established(output, ap2_connected, pwsink_established) {
        Some(up) => up,
        None => r.idle.contains_key(output) || holder_of(
            in_order(r.running.dom()),
            r.running,
            output,
        ) is Some,
    }
}

/// What is to be done for an announcement.
pub enum AnnounceDecision {
    /// Nothing; this carries it, or nothing does.
    Use(AnnounceTransport),
    /// Open a session to an AirPlay receiver.
    OpenAp2,
    /// Open a session to a remote host.
    OpenPwSink,
}

/// The model of an [`AnnounceDecision`].
pub ghost enum DecisionView {
    Use(TransportView),
    OpenAp2,
    OpenPwSink,
}

impl AnnounceDecision {
    pub open spec fn view(&self) -> DecisionView {
        match *self {
            AnnounceDecision::Use(t) => DecisionView::Use(t@),
            AnnounceDecision::OpenAp2 => DecisionView::OpenAp2,
            AnnounceDecision::OpenPwSink => DecisionView::OpenPwSink,
        }
    }
}

/// Why a routed output that no sender streams to cannot be announced to.
pub open spec fn routed_reason(output: Seq<char>) -> Seq<char> {
    match kind_of(output) {
        Some(OutputKind::Airplay2) => {
            "routed, but its AirPlay-2 sender isn't streaming (receiver unreachable, or still connecting)"@
        },
        Some(OutputKind::PwSink) => {
            "routed, but no receiver has connected to its session yet (its module-rtp-session must initiate the handshake)"@
        },
        Some(kind) => "routed, but nothing is carrying audio to this "@ + kind_human(kind),
        None => "routed, but nothing is carrying audio to this "@ + "output"@,
    }
}

/// Why no session can be opened to an output.
pub open spec fn no_session_reason(output: Seq<char>) -> Seq<char> {
    "no on-demand announcement session can be opened for this "@ + match kind_of(output) {
        Some(kind) => kind_human(kind),
        None => "output"@,
    }
}

/// What carries an announcement: a session that is up has its lease renewed, then
/// a live sender is used, then a session is opened, where the output is dialed and
/// nothing is routed to it.
pub open spec fn announce_spec(
    r: RecView,
    output: Seq<char>,
    live: bool,
    intent: Seq<Route>,
    now: u64,
) -> (RecView, DecisionView) {
    if r.sessions.contains_key(output) {
        let s = r.sessions[output];
        (
            RecView {
                sessions: r.sessions.insert(
                    output,
                    SessionView { expires_at: (now + s.linger) as u64, ..s },
                ),
                ..r
            },
            DecisionView::Use(
                if live {
                    TransportView::Live
                } else {
                    TransportView::Warm
                },
            ),
        )
    } else if live {
        (r, DecisionView::Use(TransportView::Live))
    } else if !dialed(output) {
        (r, DecisionView::Use(TransportView::Unavailable(no_transport(output))))
    } else if sources_of(effective(r.hold, intent), output) != Set::<Seq<char>>::empty() {
        (r, DecisionView::Use(TransportView::Unavailable(routed_reason(output))))
    } else {
        (
            r,
            match kind_of(output) {
                Some(OutputKind::Airplay2) => DecisionView::OpenAp2,
                Some(OutputKind::PwSink) => DecisionView::OpenPwSink,
                _ => DecisionView::Use(TransportView::Unavailable(no_session_reason(output))),
            },
        )
    }
}

fn reason_when_routed(output: &str) -> (r: String)
    ensures
        r@ == routed_reason(output@),
{
    match OutputKind::of(output) {
        Some(OutputKind::Airplay2) => {
            "routed, but its AirPlay-2 sender isn't streaming (receiver unreachable, or still connecting)".to_string()
        },
        Some(OutputKind::PwSink) => {
            "routed, but no receiver has connected to its session yet (its module-rtp-session must initiate the handshake)".to_string()
        },
        other => joined2("routed, but nothing is carrying audio to this ", kind_or_output(other)),
    }
}

/// What is reported or found, where an attempt can fail.
pub open spec fn attempt<A>(r: Result<A, AnnounceTransport>) -> Result<A, TransportView> {
    match r {
        Ok(a) => Ok(a),
        Err(t) => Err(t@),
    }
}

/// The device to dial for an announcement, or why there is none.
pub open spec fn target_of(device: Option<&Ap2Device>) -> Result<Ip, TransportView> {
    match device {
        None => Err(TransportView::Unavailable("unknown AirPlay-2 receiver"@)),
        Some(d) => if !d.present {
            Err(TransportView::Unavailable("receiver is offline"@))
        } else {
            match d.addr {
                Some(addr) => Ok(addr.0),
                None => Err(TransportView::Unavailable("receiver has no resolved address yet"@)),
            }
        },
    }
}

/// The device to dial for an announcement, or why there is none.
pub fn ap2_announce_target(device: Option<&Ap2Device>) -> (r: Result<Ip, AnnounceTransport>)
    ensures
        attempt(r) == target_of(device),
{
    let why = match device {
        None => "unknown AirPlay-2 receiver",
        Some(d) => {
            if !d.present {
                "receiver is offline"
            } else {
                match d.addr {
                    Some(addr) => {
                        return Ok(addr.0);
                    },
                    None => "receiver has no resolved address yet",
                }
            }
        },
    };
    Err(AnnounceTransport::Unavailable(why.to_string()))
}

/// Where opening a session can fail.
#[derive(Clone, Copy, Debug, PartialEq, Eq, Structural)]
pub enum OpenStep {
    /// The clock that receivers follow.
    Clock,
    /// The AirPlay session.
    Ap2,
    /// The session of a remote host.
    PwSink,
}

/// What is reported where a session could not be opened.
pub open spec fn failed_open(step: OpenStep, error: Seq<char>) -> TransportView {
    TransportView::Unavailable(
        match step {
            OpenStep::Clock => "AP2 PTP grandmaster unavailable: "@,
            OpenStep::Ap2 => "failed to start an on-demand AirPlay-2 session: "@,
            OpenStep::PwSink => "failed to start an on-demand pw-sink session: "@,
        } + error,
    )
}

/// What is reported where a session could not be opened.
pub fn open_failed(step: OpenStep, error: &str) -> (r: AnnounceTransport)
    ensures
        r@ == failed_open(step, error@),
{
    let what = match step {
        OpenStep::Clock => "AP2 PTP grandmaster unavailable: ",
        OpenStep::Ap2 => "failed to start an on-demand AirPlay-2 session: ",
        OpenStep::PwSink => "failed to start an on-demand pw-sink session: ",
    };
    AnnounceTransport::Unavailable(joined2(what, error))
}

/// How creating an announcement's sink can go.
#[derive(Clone, Copy, Debug, PartialEq, Eq, Structural)]
pub enum SinkOutcome {
    Unreachable,
    NotCreated,
    NotSeen,
    Ready(u32),
}

/// How often the graph is looked at for a new sink.
pub const SINK_LOOKS: u32 = 40;

/// How long it is waited between two looks, in milliseconds.
pub const SINK_LOOK_MS: u64 = 50;

/// What is to be done while a new sink is waited for.
#[derive(Clone, Copy, Debug, PartialEq, Eq, Structural)]
pub enum WaitStep {
    /// It is there.
    Ready(u32),
    /// Look again after this many milliseconds.
    Wait(u64),
    GiveUp,
}

/// Waiting for a new sink that was looked for in vain this often, and what the next
/// look showed. Once every look was in vain, none counts any more.
pub fn sink_wait(looks: u32, seen: Option<u32>) -> (r: WaitStep)
    ensures
        r == if looks >= SINK_LOOKS {
            WaitStep::GiveUp
        } else {
            match seen {
                Some(id) => WaitStep::Ready(id),
                None => WaitStep::Wait(SINK_LOOK_MS),
            }
        },
        looks < 40 && seen is None ==> r == WaitStep::Wait(50),
        looks < 40 && seen is Some ==> r == WaitStep::Ready(seen->0),
        looks >= 40 ==> r == WaitStep::GiveUp,
{
    if looks >= SINK_LOOKS {
        return WaitStep::GiveUp;
    }
    match seen {
        Some(id) => WaitStep::Ready(id),
        None => WaitStep::Wait(SINK_LOOK_MS),
    }
}

/// The sink's node, or what is reported where there is none.
pub open spec fn sink_or_why(output: Seq<char>, outcome: SinkOutcome) -> Result<u32, TransportView> {
    match outcome {
        SinkOutcome::Ready(id) => Ok(id),
        SinkOutcome::Unreachable => Err(TransportView::Unavailable("PipeWire thread unavailable"@)),
        SinkOutcome::NotCreated => Err(
            TransportView::Unavailable(
                "failed to create announce sink '"@ + sink_name(output) + "'"@,
            ),
        ),
        SinkOutcome::NotSeen => Err(
            TransportView::Unavailable(
                "announce sink '"@ + sink_name(output) + "' did not appear in the graph"@,
            ),
        ),
    }
}

/// The sink's node, or what is reported where there is none.
pub fn announce_sink(output: &str, outcome: SinkOutcome) -> (r: Result<u32, AnnounceTransport>)
    ensures
        attempt(r) == sink_or_why(output@, outcome),
{
    let why = match outcome {
        SinkOutcome::Ready(id) => {
            return Ok(id);
        },
        SinkOutcome::Unreachable => "PipeWire thread unavailable".to_string(),
        SinkOutcome::NotCreated => joined3(
            "failed to create announce sink '",
            &announce_sink_name(output),
            "'",
        ),
        SinkOutcome::NotSeen => joined3(
            "announce sink '",
            &announce_sink_name(output),
            "' did not appear in the graph",
        ),
    };
    Err(AnnounceTransport::Unavailable(why))
}

/// The reconciler once a session was opened.
pub open spec fn with_session(
    r: RecView,
    output: Seq<char>,
    sink_node_id: u32,
    transport: SessionTransport,
    now: u64,
    linger: u64,
) -> RecView {
    RecView {
        sessions: r.sessions.insert(
            output,
            SessionView {
                sink_node_name: sink_name(output),
                sink_node_id,
                transport,
                expires_at: (now + linger) as u64,
                linger,
            },
        ),
        ..r
    }
}

/// What ending a session takes.
pub open spec fn end_session(output: Seq<char>, s: SessionView) -> Seq<ActionView> {
    seq![
        match s.transport {
            SessionTransport::Ap2(sender) => ActionView::DropAp2 { sender },
            SessionTransport::PwSink { server, .. } => ActionView::DropPwSink { server },
        },
        ActionView::ClearRate { output },
        ActionView::DestroySink { node_id: s.sink_node_id },
    ]
}

/// What ending the sessions that `ended` picks takes, in the order of `keys`.
pub open spec fn end_sessions(
    keys: Seq<Seq<char>>,
    sessions: Map<Seq<char>, SessionView>,
    ended: spec_fn(Seq<char>) -> bool,
) -> Seq<ActionView>
    decreases keys.len(),
{
    if keys.len() == 0 {
        Seq::empty()
    } else {
        let before = end_sessions(keys.drop_last(), sessions, ended);
        let k = keys.last();
        if ended(k) {
            before + end_session(k, sessions[k])
        } else {
            before
        }
    }
}

/// The sessions once leases were looked at: one that is in use is renewed, one
/// whose lease is over is gone.
pub open spec fn polled(
    sessions: Map<Seq<char>, SessionView>,
    in_use: Set<Seq<char>>,
    now: u64,
) -> Map<Seq<char>, SessionView> {
    Map::new(
        |o: Seq<char>|
            sessions.contains_key(o) && (in_use.contains(o) || now < sessions[o].expires_at),
        |o: Seq<char>|
            if in_use.contains(o) {
                SessionView { expires_at: (now + sessions[o].linger) as u64, ..sessions[o] }
            } else {
                sessions[o]
            },
    )
}

/// Whether a session's lease is over.
pub open spec fn lease_over(
    sessions: Map<Seq<char>, SessionView>,
    in_use: Set<Seq<char>>,
    now: u64,
) -> spec_fn(Seq<char>) -> bool {
    |o: Seq<char>| !in_use.contains(o) && now >= sessions[o].expires_at
}

/// A session that a clip plays on stays, and once the clip is over it stays for one
/// whole linger: a look at the leases ends it from then on, and not before.
pub proof fn law_a_session_outlives_its_clip(
    sessions: Map<Seq<char>, SessionView>,
    in_use: Set<Seq<char>>,
    now: u64,
    later: u64,
    output: Seq<char>,
)
    requires
        sessions.contains_key(output),
        in_use.contains(output),
        now + sessions[output].linger <= u64::MAX,
    ensures
        polled(sessions, in_use, now).contains_key(output),
        polled(polled(sessions, in_use, now), Set::empty(), later).contains_key(output)
            <==> later < now + sessions[output].linger,
{
}

/// A session ends with everything it had: of each output whose lease is over, the
/// sender, the rate and the sink go, and it is no longer among the sessions; and
/// nothing is ended of an output whose session stays.
pub proof fn law_ended_sessions_leave_nothing(
    sessions: Map<Seq<char>, SessionView>,
    in_use: Set<Seq<char>>,
    now: u64,
    output: Seq<char>,
)
    requires
        sessions.dom().finite(),
        sessions.contains_key(output),
    ensures
        ({
            let ends = end_sessions(
                in_order(sessions.dom()),
                sessions,
                lease_over(sessions, in_use, now),
            );
            let over = !polled(sessions, in_use, now).contains_key(output);
            &&& over ==> forall|a: ActionView|
                #[trigger] end_session(output, sessions[output]).contains(a) ==> ends.contains(a)
            &&& !over ==> !ends.contains(ActionView::ClearRate { output })
        }),
{
    let over = lease_over(sessions, in_use, now);
    lemma_set_in_order(sessions.dom());
    let keys = in_order(sessions.dom());
    lemma_end_sessions(keys, sessions, over, output);
    assert(keys.to_set().contains(output));
    assert(over(output) <==> !polled(sessions, in_use, now).contains_key(output));
}

proof fn lemma_end_sessions(
    keys: Seq<Seq<char>>,
    sessions: Map<Seq<char>, SessionView>,
    ended: spec_fn(Seq<char>) -> bool,
    output: Seq<char>,
)
    ensures
        keys.contains(output) && ended(output) ==> forall|a: ActionView|
            #[trigger] end_session(output, sessions[output]).contains(a) ==> end_sessions(
                keys,
                sessions,
                ended,
            ).contains(a),
        !ended(output) ==> !end_sessions(keys, sessions, ended).contains(
            ActionView::ClearRate { output },
        ),
    decreases keys.len(),
{
    if keys.len() > 0 {
        let k = keys.last();
        let before = end_sessions(keys.drop_last(), sessions, ended);
        let all = end_sessions(keys, sessions, ended);
        lemma_end_sessions(keys.drop_last(), sessions, ended, output);
        if keys.contains(output) && ended(output) {
            assert forall|a: ActionView| #[trigger]
                end_session(output, sessions[output]).contains(a) implies all.contains(a) by {
                if k == output {
                    let i = choose|i: int|
                        0 <= i < end_session(k, sessions[k]).len() && end_session(k, sessions[k])[i]
                            == a;
                    assert(all[before.len() + i] == a);
                } else {
                    let j = choose|j: int| 0 <= j < keys.len() && keys[j] == output;
                    assert(keys.drop_last()[j] == output);
                    assert(before.contains(a));
                    let i = choose|i: int| 0 <= i < before.len() && before[i] == a;
                    assert(all[i] == a);
                }
            }
        }
        if !ended(output) && all.contains(ActionView::ClearRate { output }) {
            let i = choose|i: int| 0 <= i < all.len() && all[i] == (ActionView::ClearRate { output });
            if i < before.len() {
                assert(before[i] == all[i]);
            } else {
                assert(end_session(k, sessions[k])[i - before.len()] == all[i]);
            }
        }
    }
}

/// Whether a port from the base on is taken by a running group or an idle sender.
pub open spec fn port_used(r: RecView, port: u16) -> bool {
    ||| exists|k: Seq<char>| #[trigger] r.running.contains_key(k) && r.running[k].port == port
    ||| exists|k: Seq<char>| #[trigger] r.idle.contains_key(k) && r.idle[k].port == port
}

/// The lowest free port.
pub open spec fn is_lowest_free(r: RecView, port: u16) -> bool {
    &&& port >= GROUP_BASE_PORT
    &&& !port_used(r, port)
    &&& forall|p: u16| GROUP_BASE_PORT <= p < port ==> #[trigger] port_used(r, p)
}

/// Some port from the base on is free.
pub open spec fn has_free_port(r: RecView) -> bool {
    exists|p: u16| p >= GROUP_BASE_PORT && !#[trigger] port_used(r, p)
}

/// The control ports that sessions hold, groups first, in the order of the keys.
pub open spec fn group_ports(keys: Seq<Seq<char>>, running: Map<Seq<char>, RunningView>) -> Seq<u16>
    decreases keys.len(),
{
    if keys.len() == 0 {
        Seq::empty()
    } else {
        group_ports(keys.drop_last(), running) + running[keys.last()].pwsink_ports
    }
}

/// The control ports of on-demand sessions.
pub open spec fn session_ports(
    keys: Seq<Seq<char>>,
    sessions: Map<Seq<char>, SessionView>,
) -> Seq<u16>
    decreases keys.len(),
{
    if keys.len() == 0 {
        Seq::empty()
    } else {
        let before = session_ports(keys.drop_last(), sessions);
        match sessions[keys.last()].transport {
            SessionTransport::PwSink { control_port, .. } => before.push(control_port),
            SessionTransport::Ap2(_) => before,
        }
    }
}

/// Every control port that is held.
pub open spec fn held_ports(r: RecView) -> Seq<u16> {
    group_ports(in_order(r.running.dom()), r.running) + session_ports(
        in_order(r.sessions.dom()),
        r.sessions,
    )
}

/// The control port of a session with a host, or why there is none.
pub open spec fn control_port_or_why(r: RecView, connected: bool) -> Result<u16, TransportView> {
    let free = free_pairs(held_ports(r), PWSINK_BASE_PORT as int, 1);
    if !connected {
        Err(TransportView::Unavailable("no receiver agent is connected for this host"@))
    } else if free.len() == 0 {
        Err(TransportView::Unavailable("no free control port for a pw-sink session"@))
    } else {
        Ok(free[0])
    }
}

fn push_ports(list: &mut Vec<u16>, more: &Vec<u16>)
    ensures
        final(list)@ == old(list)@ + more@,
{
    let ghost before = list@;
    let mut i: usize = 0;
    while i < more.len()
        invariant
            i <= more@.len(),
            list@ == before + more@.take(i as int),
        decreases more.len() - i,
    {
        list.push(more[i]);
        assert(more@.take(i + 1) =~= more@.take(i as int).push(more@[i as int]));
        assert(list@ =~= before + more@.take(i + 1));
        i += 1;
    }
    assert(more@.take(i as int) =~= more@);
}

pub(crate) fn push_all(list: &mut Vec<Action>, more: Vec<Action>)
    ensures
        acts(final(list)@) == acts(old(list)@) + acts(more@),
{
    let ghost before = list@;
    let mut rest = more;
    let ghost all = rest@;
    list.append(&mut rest);
    assert(acts(list@) =~= acts(before) + acts(all));
}

impl GroupReconciler {
    /// Whether a sender streams to the output: for the dialed kinds whether its
    /// session is up, for a sendspin device whether a group or an idle sender has it.
    pub fn has_live_sender(
        &self,
        output: &str,
        ap2_connected: &NameSet,
        pwsink: &PwSinkLiveness,
    ) -> (r: bool)
        ensures
            r == live_sender(
                self@,
                output@,
                ap2_connected@,
                is_established(pwsink.map@, output@),
            ),
    {
        match dialed_session_established(output, ap2_connected, pwsink) {
            Some(up) => {
                return up;
            },
            None => {},
        }
        if self.idle_senders.contains_key(output) {
            return true;
        }
        self.in_running_group(output)
    }

    fn in_running_group(&self, device: &str) -> (r: bool)
        ensures
            r == (holder_of(in_order(self@.running.dom()), self@.running, device@) is Some),
    {
        let n: usize = self.running.len();
        let ghost names = self.running.names();
        proof {
            lemma_in_order(names);
            assert(names.to_set() =~= self@.running.dom());
            assert(names.skip(0) =~= names);
        }
        let mut i: usize = 0;
        while i < n
            invariant
                i <= n,
                n == names.len(),
                names == self.running.names(),
                names == in_order(self@.running.dom()),
                holder_of(names, self@.running, device@) == holder_of(
                    names.skip(i as int),
                    self@.running,
                    device@,
                ),
            decreases n - i,
        {
            proof {
                assert(names.skip(i as int)[0] == names[i as int]);
                assert(names.skip(i as int).skip(1) =~= names.skip(i + 1));
            }
            let key = self.running.key_at(i);
            if has_name(&self.running.value_at(i).server_devices, device) {
                return true;
            }
            i += 1;
        }
        false
    }

    /// Decides what carries an announcement to `output`. `intent` is the stored
    /// intent of the adopted outputs.
    pub fn ensure_announce_transport(
        &mut self,
        output: &str,
        ap2_connected: &NameSet,
        pwsink: &PwSinkLiveness,
        intent: Vec<RoutingLink>,
        now: u64,
    ) -> (r: AnnounceDecision)
        requires
            old(self)@.sessions.contains_key(output@) ==> now + old(self)@.sessions[output@].linger
                <= u64::MAX,
        ensures
            (final(self)@, r@) == announce_spec(
                old(self)@,
                output@,
                live_sender(
                    old(self)@,
                    output@,
                    ap2_connected@,
                    is_established(pwsink.map@, output@),
                ),
                routes(intent@),
                now,
            ),
    {
        let ghost before = self@;
        let live = self.has_live_sender(output, ap2_connected, pwsink);
        match self.announce_sessions.remove(output) {
            Some(mut s) => {
                assert(s@ == before.sessions[output@]);
                s.expires_at = now + s.linger;
                self.announce_sessions.insert(output.to_string(), s);
                proof {
                    assert(self@.sessions =~= before.sessions.insert(output@, s@));
                }
                return AnnounceDecision::Use(
                    if live {
                        AnnounceTransport::Live
                    } else {
                        AnnounceTransport::Warm
                    },
                );
            },
            None => {
                assert(self@.sessions =~= before.sessions);
            },
        }
        if live {
            return AnnounceDecision::Use(AnnounceTransport::Live);
        }
        if !supports_on_demand_announce(output) {
            return AnnounceDecision::Use(
                AnnounceTransport::Unavailable(no_transport_reason(output)),
            );
        }
        let intent = self.effective_intent(intent);
        let sources = source_set_of(&intent, output);
        if !sources.is_empty() {
            return AnnounceDecision::Use(
                AnnounceTransport::Unavailable(reason_when_routed(output)),
            );
        }
        assert(sources@ =~= Set::<Seq<char>>::empty());
        match OutputKind::of(output) {
            Some(OutputKind::Airplay2) => AnnounceDecision::OpenAp2,
            Some(OutputKind::PwSink) => AnnounceDecision::OpenPwSink,
            other => AnnounceDecision::Use(
                AnnounceTransport::Unavailable(
                    joined2(
                        "no on-demand announcement session can be opened for this ",
                        kind_or_output(other),
                    ),
                ),
            ),
        }
    }

    /// The control port for a session to a remote host, or why none can be opened.
    pub fn pwsink_announce_port(&self, connected: bool) -> (r: Result<u16, AnnounceTransport>)
        ensures
            attempt(r) == control_port_or_why(self@, connected),
    {
        if !connected {
            return Err(
                AnnounceTransport::Unavailable(
                    "no receiver agent is connected for this host".to_string(),
                ),
            );
        }
        let ports = self.alloc_pwsink_ports(1);
        if ports.len() == 0 {
            return Err(
                AnnounceTransport::Unavailable(
                    "no free control port for a pw-sink session".to_string(),
                ),
            );
        }
        Ok(ports[0])
    }

    /// Notes a session that was opened.
    pub fn session_opened(
        &mut self,
        output: &str,
        sink_node_id: u32,
        transport: SessionTransport,
        now: u64,
        linger: u64,
    ) -> (r: AnnounceTransport)
        requires
            now + linger <= u64::MAX,
        ensures
            r@ == TransportView::Starting,
            final(self)@ == with_session(
                old(self)@,
                output@,
                sink_node_id,
                transport,
                now,
                linger,
            ),
    {
        let ghost before = self@;
        let s = AnnounceSession {
            sink_node_name: announce_sink_name(output),
            sink_node_id,
            transport,
            expires_at: now + linger,
            linger,
        };
        self.announce_sessions.insert(output.to_string(), s);
        assert(self@.sessions =~= before.sessions.insert(output@, s@));
        AnnounceTransport::Starting
    }

    /// Ends one session; nothing where there is none.
    pub fn drop_announce_session(&mut self, output: &str) -> (r: Vec<Action>)
        ensures
            final(self)@ == (RecView {
                sessions: old(self)@.sessions.remove(output@),
                ..old(self)@
            }),
            acts(r@) == if old(self)@.sessions.contains_key(output@) {
                end_session(output@, old(self)@.sessions[output@])
            } else {
                Seq::empty()
            },
    {
        let ghost before = self@;
        let mut out = no_actions();
        match self.announce_sessions.remove(output) {
            Some(s) => {
                assert(s@ == before.sessions[output@]);
                match s.transport {
                    SessionTransport::Ap2(sender) => {
                        act(&mut out, Action::DropAp2 { sender });
                    },
                    SessionTransport::PwSink { server, control_port: _ } => {
                        act(&mut out, Action::DropPwSink { server });
                    },
                }
                act(&mut out, Action::ClearRate { output: output.to_string() });
                act(&mut out, Action::DestroySink { node_id: s.sink_node_id });
                assert(acts(out@) =~= end_session(output@, s@));
            },
            None => {},
        }
        assert(self@.sessions =~= before.sessions.remove(output@));
        out
    }

    /// Looks at the leases of the sessions: one that a clip plays on or is queued
    /// for is renewed, one that is over is ended.
    pub fn poll_announce_sessions(&mut self, in_use: &NameSet, now: u64) -> (r: Vec<Action>)
        requires
            forall|o: Seq<char>| #[trigger]
                old(self)@.sessions.contains_key(o) ==> now + old(self)@.sessions[o].linger
                    <= u64::MAX,
        ensures
            final(self)@ == (RecView {
                sessions: polled(old(self)@.sessions, in_use@, now),
                ..old(self)@
            }),
            acts(r@) == end_sessions(
                in_order(old(self)@.sessions.dom()),
                old(self)@.sessions,
                lease_over(old(self)@.sessions, in_use@, now),
            ),
    {
        let ghost before = self@;
        let ghost over = lease_over(before.sessions, in_use@, now);
        let keys = self.announce_sessions.keys();
        let ghost names = views(keys@);
        proof {
            lemma_in_order(names);
            assert(names.to_set() =~= before.sessions.dom());
        }
        let mut out = no_actions();
        let mut i: usize = 0;
        while i < keys.len()
            invariant
                i <= keys@.len(),
                names == views(keys@),
                names.to_set() == before.sessions.dom(),
                sorted_names(names),
                over == lease_over(before.sessions, in_use@, now),
                forall|o: Seq<char>| #[trigger]
                    before.sessions.contains_key(o) ==> now + before.sessions[o].linger
                        <= u64::MAX,
                self@ == (RecView { sessions: self@.sessions, ..before }),
                forall|o: Seq<char>| #[trigger]
                    self@.sessions.contains_key(o) <==> if names.take(i as int).contains(o) {
                        polled(before.sessions, in_use@, now).contains_key(o)
                    } else {
                        before.sessions.contains_key(o)
                    },
                forall|o: Seq<char>| #[trigger]
                    self@.sessions.contains_key(o) ==> self@.sessions[o] == if names.take(
                        i as int,
                    ).contains(o) {
                        polled(before.sessions, in_use@, now)[o]
                    } else {
                        before.sessions[o]
                    },
                acts(out@) == end_sessions(names.take(i as int), before.sessions, over),
            decreases keys.len() - i,
        {
            proof {
                lemma_take_next(names, i as int);
                assert(names.take(i + 1).drop_last() =~= names.take(i as int));
                assert(names.to_set().contains(names[i as int]));
                if names.take(i as int).contains(names[i as int]) {
                    let j = choose|j: int| 0 <= j < i && names.take(i as int)[j] == names[i as int];
                    crate::maps::lemma_sorted_unique(names, j, i as int);
                }
            }
            let ghost o = names[i as int];
            let ghost mid = self@.sessions;
            assert(before.sessions.contains_key(o));
            assert(mid.contains_key(o));
            assert(mid[o] == before.sessions[o]);
            let used = in_use.contains(&keys[i]);
            let expired = match self.announce_sessions.get(&keys[i]) {
                Some(s) => now >= s.expires_at,
                None => false,
            };
            if used {
                match self.announce_sessions.remove(&keys[i]) {
                    Some(mut s) => {
                        s.expires_at = now + s.linger;
                        self.announce_sessions.insert(keys[i].clone(), s);
                        assert(self@.sessions =~= mid.insert(o, s@));
                    },
                    None => {},
                }
            } else if expired {
                let ended = self.drop_announce_session(&keys[i]);
                push_all(&mut out, ended);
            }
            i += 1;
        }
        proof {
            assert(names.take(i as int) =~= names);
            assert forall|o: Seq<char>| names.contains(o) <==> before.sessions.contains_key(o) by {
                assert(names.to_set().contains(o) <==> before.sessions.dom().contains(o));
            }
            assert(self@.sessions =~= polled(before.sessions, in_use@, now));
        }
        out
    }

    /// The lowest free port for a server.
    pub fn alloc_port(&self) -> (r: Option<u16>)
        ensures
            match r {
                Some(p) => is_lowest_free(self@, p),
                None => !has_free_port(self@),
            },
    {
        let mut port: u16 = GROUP_BASE_PORT;
        loop
            invariant
                port >= GROUP_BASE_PORT,
                forall|p: u16| GROUP_BASE_PORT <= p < port ==> #[trigger] port_used(self@, p),
            decreases 65535 - port,
        {
            if !self.is_port_used(port) {
                return Some(port);
            }
            if port == 65535 {
                return None;
            }
            port = port + 1;
        }
    }

    fn is_port_used(&self, port: u16) -> (r: bool)
        ensures
            r == port_used(self@, port),
    {
        let n: usize = self.running.len();
        let mut i: usize = 0;
        while i < n
            invariant
                i <= n,
                n == self.running.names().len(),
                forall|j: int|
                    0 <= j < i ==> self@.running[#[trigger] self.running.names()[j]].port != port,
            decreases n - i,
        {
            let key = self.running.key_at(i);
            if self.running.value_at(i).port == port {
                assert(self@.running.contains_key(key@));
                return true;
            }
            i += 1;
        }
        let m: usize = self.idle_senders.len();
        let mut k: usize = 0;
        while k < m
            invariant
                k <= m,
                m == self.idle_senders.names().len(),
                n == self.running.names().len(),
                forall|j: int|
                    0 <= j < n ==> self@.running[#[trigger] self.running.names()[j]].port != port,
                forall|j: int|
                    0 <= j < k ==> self@.idle[#[trigger] self.idle_senders.names()[j]].port != port,
            decreases m - k,
        {
            let key = self.idle_senders.key_at(k);
            if self.idle_senders.value_at(k).port == port {
                assert(self@.idle.contains_key(key@));
                return true;
            }
            k += 1;
        }
        proof {
            assert forall|x: Seq<char>| #[trigger]
                self@.running.contains_key(x) implies self@.running[x].port != port by {
                assert(self.running.names().contains(x));
                let j = choose|j: int| 0 <= j < n && self.running.names()[j] == x;
            }
            assert forall|x: Seq<char>| #[trigger] self@.idle.contains_key(x) implies self@.idle[x].port
                != port by {
                assert(self.idle_senders.names().contains(x));
                let j = choose|j: int| 0 <= j < m && self.idle_senders.names()[j] == x;
            }
        }
        false
    }

    /// Free control ports for `n` sessions to remote hosts.
    pub fn alloc_pwsink_ports(&self, n: usize) -> (r: Vec<u16>)
        ensures
            r@ == free_pairs(held_ports(self@), PWSINK_BASE_PORT as int, n as nat),
    {
        let mut taken: Vec<u16> = Vec::new();
        let a: usize = self.running.len();
        let ghost names = self.running.names();
        proof {
            lemma_in_order(names);
            assert(names.to_set() =~= self@.running.dom());
        }
        let mut i: usize = 0;
        while i < a
            invariant
                i <= a,
                a == names.len(),
                names == self.running.names(),
                taken@ == group_ports(names.take(i as int), self@.running),
            decreases a - i,
        {
            proof {
                assert(names.take(i + 1).drop_last() =~= names.take(i as int));
            }
            let key = self.running.key_at(i);
            push_ports(&mut taken, &self.running.value_at(i).pwsink_ports);
            i += 1;
        }
        assert(names.take(a as int) =~= names);
        let ghost groups = taken@;
        let b: usize = self.announce_sessions.len();
        let ghost outputs = self.announce_sessions.names();
        proof {
            lemma_in_order(outputs);
            assert(outputs.to_set() =~= self@.sessions.dom());
        }
        let mut k: usize = 0;
        assert(groups + session_ports(outputs.take(0), self@.sessions) =~= groups);
        while k < b
            invariant
                k <= b,
                b == outputs.len(),
                outputs == self.announce_sessions.names(),
                taken@ == groups + session_ports(outputs.take(k as int), self@.sessions),
            decreases b - k,
        {
            proof {
                assert(outputs.take(k + 1).drop_last() =~= outputs.take(k as int));
            }
            let key = self.announce_sessions.key_at(k);
            let ghost before = taken@;
            match self.announce_sessions.value_at(k).transport {
                SessionTransport::PwSink { server: _, control_port } => {
                    taken.push(control_port);
                    assert(taken@ =~= groups + session_ports(outputs.take(k + 1), self@.sessions));
                },
                SessionTransport::Ap2(_) => {},
            }
            k += 1;
        }
        assert(outputs.take(b as int) =~= outputs);
        next_free_pwsink_ports(&taken, n)
    }
}

// ---- leaving -------------------------------------------------------------------------

/// The senders of one kind.
#[derive(Clone, Copy, Debug, PartialEq, Eq, Structural)]
pub enum Part {
    Sendspin,
    Ap2,
    PwSink,
}

/// A group's handle of this kind.
pub open spec fn handle_of(part: Part, g: RunningView) -> Option<u64> {
    match part {
        Part::Sendspin => g.server,
        Part::Ap2 => g.ap2_sender,
        Part::PwSink => g.pwsink_server,
    }
}

/// A group whose senders of this kind are gone.
pub open spec fn without(part: Part, g: RunningView) -> RunningView {
    match part {
        Part::Sendspin => RunningView {
            server: None,
            server_devices: Seq::empty(),
            server_members: Seq::empty(),
            server_send_ahead_us: 0,
            force_device_reconnect: Set::empty(),
            ..g
        },
        Part::Ap2 => RunningView { ap2_sender: None, ap2_members: Seq::empty(), ..g },
        Part::PwSink => RunningView {
            pwsink_server: None,
            pwsink_members: Seq::empty(),
            pwsink_ports: Seq::empty(),
            ..g
        },
    }
}

/// The handles of this kind, in the order of `keys`.
pub open spec fn handles_of(
    part: Part,
    keys: Seq<Seq<char>>,
    running: Map<Seq<char>, RunningView>,
) -> Seq<u64>
    decreases keys.len(),
{
    if keys.len() == 0 {
        Seq::empty()
    } else {
        let before = handles_of(part, keys.drop_last(), running);
        match handle_of(part, running[keys.last()]) {
            Some(h) => before.push(h),
            None => before,
        }
    }
}

/// The handles of idle senders, in the order of `keys`.
pub open spec fn idle_handles(keys: Seq<Seq<char>>, idle: Map<Seq<char>, IdleView>) -> Seq<u64> {
    keys.map_values(|k: Seq<char>| idle[k].server)
}

/// The handles of sessions to receivers, in the order of `keys`.
pub open spec fn ap2_handles(
    keys: Seq<Seq<char>>,
    sessions: Map<Seq<char>, SessionView>,
) -> Seq<u64>
    decreases keys.len(),
{
    if keys.len() == 0 {
        Seq::empty()
    } else {
        let before = ap2_handles(keys.drop_last(), sessions);
        match sessions[keys.last()].transport {
            SessionTransport::Ap2(h) => before.push(h),
            SessionTransport::PwSink { .. } => before,
        }
    }
}

/// The handles of sessions to remote hosts, in the order of `keys`.
pub open spec fn pwsink_handles(
    keys: Seq<Seq<char>>,
    sessions: Map<Seq<char>, SessionView>,
) -> Seq<u64>
    decreases keys.len(),
{
    if keys.len() == 0 {
        Seq::empty()
    } else {
        let before = pwsink_handles(keys.drop_last(), sessions);
        match sessions[keys.last()].transport {
            SessionTransport::PwSink { server, .. } => before.push(server),
            SessionTransport::Ap2(_) => before,
        }
    }
}

/// The sessions to receivers.
pub open spec fn ap2_sessions(sessions: Map<Seq<char>, SessionView>) -> Map<Seq<char>, SessionView> {
    sessions.restrict(
        Set::new(|o: Seq<char>| sessions.contains_key(o) && sessions[o].transport is Ap2),
    )
}

/// The sessions to remote hosts.
pub open spec fn pwsink_sessions(
    sessions: Map<Seq<char>, SessionView>,
) -> Map<Seq<char>, SessionView> {
    sessions.restrict(
        Set::new(|o: Seq<char>| sessions.contains_key(o) && sessions[o].transport is PwSink),
    )
}

proof fn lemma_no_pwsink_sessions(keys: Seq<Seq<char>>, sessions: Map<Seq<char>, SessionView>)
    requires
        pwsink_handles(keys, sessions).len() == 0,
    ensures
        forall|i: int| 0 <= i < keys.len() ==> sessions[#[trigger] keys[i]].transport is Ap2,
    decreases keys.len(),
{
    if keys.len() > 0 {
        let front = keys.drop_last();
        lemma_no_pwsink_sessions(front, sessions);
        assert forall|i: int| 0 <= i < keys.len() implies sessions[#[trigger] keys[i]].transport is Ap2 by {
            if i < front.len() {
                assert(front[i] == keys[i]);
            }
        }
    }
}

pub(crate) fn clear_part(part: Part, g: &mut RunningGroup)
    ensures
        final(g)@ == without(part, old(g)@),
{
    let ghost before = g@;
    match part {
        Part::Sendspin => {
            g.server = None;
            g.server_devices = Vec::new();
            g.server_members = Vec::new();
            g.server_send_ahead_us = 0;
            g.force_device_reconnect = NameSet::new();
        },
        Part::Ap2 => {
            g.ap2_sender = None;
            g.ap2_members = Vec::new();
        },
        Part::PwSink => {
            g.pwsink_server = None;
            g.pwsink_members = Vec::new();
            g.pwsink_ports = Vec::new();
        },
    }
    assert(g@ =~= without(part, before));
}

impl GroupReconciler {
    fn close_part(&mut self, part: Part, every: bool) -> (r: Vec<u64>)
        ensures
            final(self)@ == (RecView {
                running: old(self)@.running.map_values(
                    |g: RunningView|
                        if every || handle_of(part, g) is Some {
                            without(part, g)
                        } else {
                            g
                        },
                ),
                ..old(self)@
            }),
            r@ == handles_of(part, in_order(old(self)@.running.dom()), old(self)@.running),
    {
        let ghost before = self@;
        let ghost f = |g: RunningView|
            if every || handle_of(part, g) is Some {
                without(part, g)
            } else {
                g
            };
        let keys = self.running.keys();
        let ghost names = views(keys@);
        proof {
            lemma_in_order(names);
            assert(names.to_set() =~= before.running.dom());
        }
        let mut out: Vec<u64> = Vec::new();
        let mut i: usize = 0;
        while i < keys.len()
            invariant
                i <= keys@.len(),
                names == views(keys@),
                names.to_set() == before.running.dom(),
                sorted_names(names),
                f == (|g: RunningView|
                    if every || handle_of(part, g) is Some {
                        without(part, g)
                    } else {
                        g
                    }),
                self@ == (RecView { running: self@.running, ..before }),
                self@.running.dom() == before.running.dom(),
                forall|o: Seq<char>| #[trigger]
                    self@.running.contains_key(o) ==> self@.running[o] == if names.take(
                        i as int,
                    ).contains(o) {
                        f(before.running[o])
                    } else {
                        before.running[o]
                    },
                out@ == handles_of(part, names.take(i as int), before.running),
            decreases keys.len() - i,
        {
            proof {
                lemma_take_next(names, i as int);
                assert(names.take(i + 1).drop_last() =~= names.take(i as int));
                assert(names.to_set().contains(names[i as int]));
                if names.take(i as int).contains(names[i as int]) {
                    let j = choose|j: int| 0 <= j < i && names.take(i as int)[j] == names[i as int];
                    crate::maps::lemma_sorted_unique(names, j, i as int);
                }
            }
            let ghost o = names[i as int];
            let ghost mid = self@.running;
            assert(before.running.dom().contains(o));
            assert(mid.contains_key(o));
            assert(mid[o] == before.running[o]);
            match self.running.remove(&keys[i]) {
                Some(mut g) => {
                    let ghost was = g@;
                    let handle = match part {
                        Part::Sendspin => g.server,
                        Part::Ap2 => g.ap2_sender,
                        Part::PwSink => g.pwsink_server,
                    };
                    match handle {
                        Some(h) => {
                            out.push(h);
                        },
                        None => {},
                    }
                    if every || handle.is_some() {
                        clear_part(part, &mut g);
                    }
                    self.running.insert(keys[i].clone(), g);
                    proof {
                        assert(g@ == f(was));
                        assert(self@.running =~= mid.insert(o, g@));
                    }
                },
                None => {},
            }
            i += 1;
        }
        proof {
            assert(names.take(i as int) =~= names);
            assert forall|o: Seq<char>| names.contains(o) <==> before.running.contains_key(o) by {
                assert(names.to_set().contains(o) <==> before.running.dom().contains(o));
            }
            assert(self@.running =~= before.running.map_values(f));
        }
        out
    }

    fn take_sessions(&mut self, ap2: bool) -> (r: Vec<u64>)
        ensures
            final(self)@ == (RecView {
                sessions: if ap2 {
                    pwsink_sessions(old(self)@.sessions)
                } else {
                    ap2_sessions(old(self)@.sessions)
                },
                ..old(self)@
            }),
            r@ == if ap2 {
                ap2_handles(in_order(old(self)@.sessions.dom()), old(self)@.sessions)
            } else {
                pwsink_handles(in_order(old(self)@.sessions.dom()), old(self)@.sessions)
            },
    {
        let ghost before = self@;
        let keys = self.announce_sessions.keys();
        let ghost names = views(keys@);
        proof {
            lemma_in_order(names);
            assert(names.to_set() =~= before.sessions.dom());
        }
        let mut out: Vec<u64> = Vec::new();
        let mut i: usize = 0;
        while i < keys.len()
            invariant
                i <= keys@.len(),
                names == views(keys@),
                names.to_set() == before.sessions.dom(),
                sorted_names(names),
                self@ == (RecView { sessions: self@.sessions, ..before }),
                forall|o: Seq<char>| #[trigger]
                    self@.sessions.contains_key(o) <==> before.sessions.contains_key(o) && !(
                    names.take(i as int).contains(o) && (before.sessions[o].transport is Ap2)
                        == ap2),
                forall|o: Seq<char>| #[trigger]
                    self@.sessions.contains_key(o) ==> self@.sessions[o] == before.sessions[o],
                out@ == if ap2 {
                    ap2_handles(names.take(i as int), before.sessions)
                } else {
                    pwsink_handles(names.take(i as int), before.sessions)
                },
            decreases keys.len() - i,
        {
            proof {
                lemma_take_next(names, i as int);
                assert(names.take(i + 1).drop_last() =~= names.take(i as int));
                assert(names.to_set().contains(names[i as int]));
                if names.take(i as int).contains(names[i as int]) {
                    let j = choose|j: int| 0 <= j < i && names.take(i as int)[j] == names[i as int];
                    crate::maps::lemma_sorted_unique(names, j, i as int);
                }
            }
            let ghost o = names[i as int];
            let ghost mid = self@.sessions;
            assert(before.sessions.dom().contains(o));
            assert(mid.contains_key(o));
            let picked = match self.announce_sessions.get(&keys[i]) {
                Some(s) => match s.transport {
                    SessionTransport::Ap2(h) => if ap2 {
                        Some(h)
                    } else {
                        None
                    },
                    SessionTransport::PwSink { server, control_port: _ } => if ap2 {
                        None
                    } else {
                        Some(server)
                    },
                },
                None => None,
            };
            match picked {
                Some(h) => {
                    out.push(h);
                    self.announce_sessions.remove(&keys[i]);
                    assert(self@.sessions =~= mid.remove(o));
                },
                None => {},
            }
            i += 1;
        }
        proof {
            assert(names.take(i as int) =~= names);
            assert forall|o: Seq<char>| names.contains(o) <==> before.sessions.contains_key(o) by {
                assert(names.to_set().contains(o) <==> before.sessions.dom().contains(o));
            }
            if ap2 {
                assert(self@.sessions =~= pwsink_sessions(before.sessions));
            } else {
                assert(self@.sessions =~= ap2_sessions(before.sessions));
            }
        }
        out
    }

    /// Takes every sendspin server down, groups' and idle ones, so that each device
    /// is told that its stream ends. Gives the servers to stop.
    pub fn shutdown_sendspin(&mut self) -> (r: Vec<u64>)
        ensures
            final(self)@ == (RecView {
                running: old(self)@.running.map_values(
                    |g: RunningView|
                        if g.server is Some {
                            without(Part::Sendspin, g)
                        } else {
                            g
                        },
                ),
                idle: Map::empty(),
                ..old(self)@
            }),
            r@ == handles_of(
                Part::Sendspin,
                in_order(old(self)@.running.dom()),
                old(self)@.running,
            ) + idle_handles(in_order(old(self)@.idle.dom()), old(self)@.idle),
    {
        let ghost before = self@;
        let mut out = self.close_part(Part::Sendspin, false);
        proof {
            assert(self@.running =~= before.running.map_values(
                |g: RunningView|
                    if g.server is Some {
                        without(Part::Sendspin, g)
                    } else {
                        g
                    },
            ));
        }
        let ghost servers = out@;
        let n: usize = self.idle_senders.len();
        let ghost names = self.idle_senders.names();
        let ghost idle = idle_handles(names, before.idle);
        proof {
            lemma_in_order(names);
            assert(names.to_set() =~= before.idle.dom());
            assert(servers + idle.take(0) =~= servers);
        }
        let mut i: usize = 0;
        while i < n
            invariant
                i <= n,
                n == names.len(),
                names == self.idle_senders.names(),
                self@.idle == before.idle,
                idle == idle_handles(names, before.idle),
                out@ == servers + idle.take(i as int),
            decreases n - i,
        {
            let key = self.idle_senders.key_at(i);
            out.push(self.idle_senders.value_at(i).server);
            proof {
                assert(idle.take(i + 1) =~= idle.take(i as int).push(idle[i as int]));
                assert(out@ =~= servers + idle.take(i + 1));
            }
            i += 1;
        }
        assert(idle.take(n as int) =~= idle);
        self.idle_senders = NameMap::new();
        assert(self@.idle =~= Map::<Seq<char>, IdleView>::empty());
        out
    }

    /// Takes every AirPlay session down, groups' and on-demand ones. Gives the
    /// senders to close.
    pub fn shutdown_ap2(&mut self) -> (r: Vec<u64>)
        ensures
            final(self)@ == (RecView {
                running: old(self)@.running.map_values(
                    |g: RunningView|
                        if g.ap2_sender is Some {
                            without(Part::Ap2, g)
                        } else {
                            g
                        },
                ),
                sessions: pwsink_sessions(old(self)@.sessions),
                ..old(self)@
            }),
            r@ == handles_of(Part::Ap2, in_order(old(self)@.running.dom()), old(self)@.running)
                + ap2_handles(in_order(old(self)@.sessions.dom()), old(self)@.sessions),
    {
        let ghost before = self@;
        let mut out = self.close_part(Part::Ap2, false);
        proof {
            assert(self@.running =~= before.running.map_values(
                |g: RunningView|
                    if g.ap2_sender is Some {
                        without(Part::Ap2, g)
                    } else {
                        g
                    },
            ));
        }
        let mut more = self.take_sessions(true);
        out.append(&mut more);
        out
    }

    /// Takes every session to a remote host down, groups' and on-demand ones, so
    /// that each receiver is told. Gives the senders to close.
    pub fn shutdown_pwsink(&mut self) -> (r: Vec<u64>)
        ensures
            ({
                let before = old(self)@;
                let servers = handles_of(Part::PwSink, in_order(before.running.dom()), before.running)
                    + pwsink_handles(in_order(before.sessions.dom()), before.sessions);
                &&& r@ == servers
                &&& final(self)@ == if servers.len() == 0 {
                    before
                } else {
                    RecView {
                        running: before.running.map_values(
                            |g: RunningView| without(Part::PwSink, g),
                        ),
                        sessions: ap2_sessions(before.sessions),
                        ..before
                    }
                }
            }),
    {
        let ghost before = self@;
        let n: usize = self.running.len();
        let ghost names = self.running.names();
        proof {
            lemma_in_order(names);
            assert(names.to_set() =~= before.running.dom());
        }
        let mut any = false;
        let mut i: usize = 0;
        while i < n
            invariant
                i <= n,
                n == names.len(),
                names == self.running.names(),
                self@ == before,
                any == (handles_of(Part::PwSink, names.take(i as int), before.running).len() > 0),
            decreases n - i,
        {
            proof {
                assert(names.take(i + 1).drop_last() =~= names.take(i as int));
            }
            let key = self.running.key_at(i);
            if self.running.value_at(i).pwsink_server.is_some() {
                any = true;
            }
            i += 1;
        }
        assert(names.take(n as int) =~= names);
        let m: usize = self.announce_sessions.len();
        let ghost outputs = self.announce_sessions.names();
        proof {
            lemma_in_order(outputs);
            assert(outputs.to_set() =~= before.sessions.dom());
        }
        let mut sessions = self.take_sessions(false);
        if !any && sessions.len() == 0 {
            proof {
                lemma_no_pwsink_sessions(outputs, before.sessions);
                assert forall|o: Seq<char>| #[trigger]
                    before.sessions.contains_key(o) implies before.sessions[o].transport is Ap2 by {
                    assert(outputs.to_set().contains(o));
                    let j = choose|j: int| 0 <= j < outputs.len() && outputs[j] == o;
                    assert(before.sessions[outputs[j]].transport is Ap2);
                }
                assert(ap2_sessions(before.sessions) =~= before.sessions);
            }
            return Vec::new();
        }
        let mut out = self.close_part(Part::PwSink, true);
        proof {
            assert(self@.running =~= before.running.map_values(
                |g: RunningView| without(Part::PwSink, g),
            ));
        }
        out.append(&mut sessions);
        out
    }
}

// ---- laws of what is held --------------------------------------------------------------

proof fn lemma_keys_of<V>(m: Map<Seq<char>, V>)
    requires
        m.dom().finite(),
    ensures
        forall|k: Seq<char>| #[trigger] in_order(m.dom()).contains(k) <==> m.contains_key(k),
{
    let keys = in_order(m.dom());
    lemma_set_in_order(m.dom());
    assert forall|k: Seq<char>| #[trigger] keys.contains(k) <==> m.contains_key(k) by {
        assert(keys.to_set().contains(k) <==> keys.contains(k));
    }
}

proof fn lemma_holder(keys: Seq<Seq<char>>, running: Map<Seq<char>, RunningView>, device: Seq<char>)
    ensures
        match holder_of(keys, running, device) {
            Some(k) => keys.contains(k) && running[k].server_devices.contains(device),
            None => forall|i: int|
                0 <= i < keys.len() ==> !running[#[trigger] keys[i]].server_devices.contains(
                    device,
                ),
        },
    decreases keys.len(),
{
    if keys.len() > 0 {
        let rest = keys.skip(1);
        lemma_holder(rest, running, device);
        if running[keys[0]].server_devices.contains(device) {
            assert(keys.contains(keys[0]));
        } else {
            match holder_of(rest, running, device) {
                Some(k) => {
                    let i = choose|i: int| 0 <= i < rest.len() && rest[i] == k;
                    assert(keys[i + 1] == k);
                },
                None => {
                    assert forall|i: int| 0 <= i < keys.len() implies !running[
                        #[trigger] keys[i]
                    ].server_devices.contains(device) by {
                        if i > 0 {
                            assert(rest[i - 1] == keys[i]);
                        }
                    }
                },
            }
        }
    }
}

/// A device is found in the group that plays to it: one is found exactly where some
/// running group's server has the device, and that group has it.
pub proof fn law_a_playing_device_is_found(r: RecView, device: Seq<char>)
    requires
        r.running.dom().finite(),
    ensures
        ({
            let found = holder_of(in_order(r.running.dom()), r.running, device);
            &&& found is Some <==> exists|k: Seq<char>| #[trigger]
                r.running.contains_key(k) && r.running[k].server_devices.contains(device)
            &&& found is Some ==> r.running.contains_key(found->0)
                && r.running[found->0].server_devices.contains(device)
        }),
{
    let keys = in_order(r.running.dom());
    lemma_keys_of(r.running);
    lemma_holder(keys, r.running, device);
    if exists|k: Seq<char>| #[trigger]
        r.running.contains_key(k) && r.running[k].server_devices.contains(device) {
        let k = choose|k: Seq<char>| #[trigger]
            r.running.contains_key(k) && r.running[k].server_devices.contains(device);
        assert(keys.contains(k));
        let i = choose|i: int| 0 <= i < keys.len() && keys[i] == k;
        assert(running_at(r, keys, i).server_devices.contains(device));
    }
}

spec fn running_at(r: RecView, keys: Seq<Seq<char>>, i: int) -> RunningView {
    r.running[keys[i]]
}

/// A clip put on an output is heard where a sender streams to it: to a receiver where
/// its session is connected, to a host where a receiver attached to it, and to any
/// other output where it has an idle sender or a running group's server has it.
pub proof fn law_a_sender_is_live_where_it_is_heard(
    r: RecView,
    output: Seq<char>,
    ap2_connected: Set<Seq<char>>,
    established: bool,
)
    requires
        r.running.dom().finite(),
    ensures
        ({
            let live = live_sender(r, output, ap2_connected, established);
            let airplay = AP2_DEV_PREFIX@.is_prefix_of(output);
            let host = PWSINK_DEV_PREFIX@.is_prefix_of(output);
            &&& airplay ==> live == ap2_connected.contains(output)
            &&& !airplay && host ==> live == established
            &&& !airplay && !host ==> (live <==> r.idle.contains_key(output) || exists|
                k: Seq<char>,
            | #[trigger]
                r.running.contains_key(k) && r.running[k].server_devices.contains(output))
        }),
{
    law_a_playing_device_is_found(r, output);
}

/// What carries an announcement is what is there: a session that is up, which is then
/// kept for one more linger; else a live sender. A session is opened only to a
/// receiver or a host that nothing is routed to and that nothing carries yet, and to
/// such a one it is. No other session is touched.
pub proof fn law_announcements_take_what_is_there(
    r: RecView,
    output: Seq<char>,
    live: bool,
    intent: Seq<Route>,
    now: u64,
)
    requires
        r.hold is None,
        r.sessions.contains_key(output) ==> now + r.sessions[output].linger <= u64::MAX,
    ensures
        ({
            let (r2, choice) = announce_spec(r, output, live, intent, now);
            let up = r.sessions.contains_key(output);
            let routed = exists|i: int| 0 <= i < intent.len() && (#[trigger] intent[i]).1 == output;
            let airplay = AP2_DEV_PREFIX@.is_prefix_of(output);
            let host = PWSINK_DEV_PREFIX@.is_prefix_of(output);
            &&& up && live ==> choice == DecisionView::Use(TransportView::Live)
            &&& up && !live ==> choice == DecisionView::Use(TransportView::Warm)
            &&& up ==> r2.sessions.contains_key(output) && r2.sessions[output].expires_at == now
                + r.sessions[output].linger && r2.sessions[output].linger
                == r.sessions[output].linger && r2.sessions[output].transport
                == r.sessions[output].transport && r2.sessions[output].sink_node_id
                == r.sessions[output].sink_node_id
            &&& !up ==> r2 == r
            &&& !up && live ==> choice == DecisionView::Use(TransportView::Live)
            &&& choice is OpenAp2 ==> !up && !live && !routed && airplay
            &&& choice is OpenPwSink ==> !up && !live && !routed && host
            &&& !up && !live && !routed && airplay ==> choice is OpenAp2
            &&& !up && !live && !routed && host ==> choice is OpenPwSink
            &&& !up && !live && (routed || !(airplay || host)) ==> choice is Use
                && choice->Use_0 is Unavailable
            &&& forall|o: Seq<char>|
                o != output ==> r2.sessions.contains_key(o) == r.sessions.contains_key(o)
                    && #[trigger] r2.sessions[o] == r.sessions[o]
            &&& r2.running == r.running && r2.idle == r.idle && r2.hold == r.hold
        }),
{
    let routed = exists|i: int| 0 <= i < intent.len() && (#[trigger] intent[i]).1 == output;
    let fed = sources_of(intent, output);
    if routed {
        let i = choose|i: int| 0 <= i < intent.len() && (#[trigger] intent[i]).1 == output;
        assert(intent.contains((intent[i].0, output)));
        assert(fed.contains(intent[i].0));
    }
    if fed != Set::<Seq<char>>::empty() {
        if !routed {
            assert(fed =~= Set::<Seq<char>>::empty());
        }
    }
    crate::names::lemma_kinds_disjoint(output);
    assert(kind_prefix(OutputKind::Sendspin) == SENDSPIN_DEV_PREFIX@);
    assert(kind_prefix(OutputKind::Airplay2) == AP2_DEV_PREFIX@);
    assert(kind_prefix(OutputKind::PwSink) == PWSINK_DEV_PREFIX@);
}

/// A look at the leases renews every session that something plays on, leaves one
/// whose lease still runs as it was, and ends every other; it opens none.
pub proof fn law_leases_are_kept_and_ended(
    sessions: Map<Seq<char>, SessionView>,
    in_use: Set<Seq<char>>,
    now: u64,
    o: Seq<char>,
)
    ensures
        ({
            let left = polled(sessions, in_use, now);
            let s = sessions[o];
            let t = left[o];
            &&& !sessions.contains_key(o) ==> !left.contains_key(o)
            &&& sessions.contains_key(o) && in_use.contains(o) && now + s.linger <= u64::MAX
                ==> left.contains_key(o) && t.expires_at == now + s.linger && t.linger == s.linger
                && t.transport == s.transport && t.sink_node_id == s.sink_node_id
                && t.sink_node_name == s.sink_node_name
            &&& sessions.contains_key(o) && !in_use.contains(o) && now < s.expires_at
                ==> left.contains_key(o) && t == s
            &&& sessions.contains_key(o) && !in_use.contains(o) && now >= s.expires_at
                ==> !left.contains_key(o)
        }),
{
}

/// A session that was just opened is leased for one linger from now, and renewing
/// and ending it find the sender and the sink it was opened with.
pub proof fn law_a_new_session_is_leased_from_now(
    r: RecView,
    output: Seq<char>,
    sink: u32,
    transport: SessionTransport,
    now: u64,
    linger: u64,
    look: u64,
)
    requires
        now + linger <= u64::MAX,
    ensures
        ({
            let after = with_session(r, output, sink, transport, now, linger);
            &&& polled(after.sessions, Set::empty(), look).contains_key(output) <==> look < now
                + linger
            &&& after.sessions[output].transport == transport
            &&& after.sessions[output].sink_node_id == sink
            &&& after.sessions[output].linger == linger
            &&& after.sessions.remove(output) == r.sessions.remove(output)
            &&& after.running == r.running
            &&& after.idle == r.idle
            &&& after.hold == r.hold
        }),
{
    let after = with_session(r, output, sink, transport, now, linger);
    assert(after.sessions.remove(output) =~= r.sessions.remove(output));
}

proof fn lemma_joined_ports(s: Seq<u16>, t: Seq<u16>)
    ensures
        forall|p: u16| #[trigger] (s + t).contains(p) <==> s.contains(p) || t.contains(p),
{
    assert forall|p: u16| #[trigger] (s + t).contains(p) <==> s.contains(p) || t.contains(p) by {
        if s.contains(p) {
            let i = choose|i: int| 0 <= i < s.len() && s[i] == p;
            assert((s + t)[i] == p);
        }
        if t.contains(p) {
            let i = choose|i: int| 0 <= i < t.len() && t[i] == p;
            assert((s + t)[s.len() + i] == p);
        }
        if (s + t).contains(p) {
            let i = choose|i: int| 0 <= i < (s + t).len() && (s + t)[i] == p;
            if i < s.len() {
                assert(s[i] == p);
            } else {
                assert(t[i - s.len()] == p);
            }
        }
    }
}

proof fn lemma_group_ports(keys: Seq<Seq<char>>, running: Map<Seq<char>, RunningView>, p: u16)
    ensures
        group_ports(keys, running).contains(p) <==> exists|i: int|
            0 <= i < keys.len() && running[#[trigger] keys[i]].pwsink_ports.contains(p),
    decreases keys.len(),
{
    if keys.len() > 0 {
        let front = keys.drop_last();
        lemma_group_ports(front, running, p);
        lemma_joined_ports(group_ports(front, running), running[keys.last()].pwsink_ports);
        if group_ports(front, running).contains(p) {
            let i = choose|i: int|
                0 <= i < front.len() && running[#[trigger] front[i]].pwsink_ports.contains(p);
            assert(keys[i] == front[i]);
        }
        if exists|i: int| 0 <= i < keys.len() && running[#[trigger] keys[i]].pwsink_ports.contains(p) {
            let i = choose|i: int|
                0 <= i < keys.len() && running[#[trigger] keys[i]].pwsink_ports.contains(p);
            if i < front.len() {
                assert(front[i] == keys[i]);
            }
        }
        assert(keys[keys.len() - 1] == keys.last());
    }
}

proof fn lemma_session_ports(keys: Seq<Seq<char>>, sessions: Map<Seq<char>, SessionView>, p: u16)
    ensures
        session_ports(keys, sessions).contains(p) <==> exists|i: int|
            0 <= i < keys.len() && sessions[#[trigger] keys[i]].transport is PwSink
                && sessions[keys[i]].transport->control_port == p,
    decreases keys.len(),
{
    if keys.len() > 0 {
        let front = keys.drop_last();
        lemma_session_ports(front, sessions, p);
        let before = session_ports(front, sessions);
        if sessions[keys.last()].transport is PwSink {
            lemma_push_contains(before, sessions[keys.last()].transport->control_port);
        }
        if before.contains(p) {
            let i = choose|i: int|
                0 <= i < front.len() && sessions[#[trigger] front[i]].transport is PwSink
                    && sessions[front[i]].transport->control_port == p;
            assert(keys[i] == front[i]);
        }
        if exists|i: int|
            0 <= i < keys.len() && sessions[#[trigger] keys[i]].transport is PwSink
                && sessions[keys[i]].transport->control_port == p {
            let i = choose|i: int|
                0 <= i < keys.len() && sessions[#[trigger] keys[i]].transport is PwSink
                    && sessions[keys[i]].transport->control_port == p;
            if i < front.len() {
                assert(front[i] == keys[i]);
            }
        }
        assert(keys[keys.len() - 1] == keys.last());
    }
}

/// A control port is held exactly where a running group or an on-demand session to a
/// host has it.
pub proof fn law_held_ports_are_those_in_use(r: RecView, p: u16)
    requires
        r.running.dom().finite(),
        r.sessions.dom().finite(),
    ensures
        held_ports(r).contains(p) <==> ((exists|k: Seq<char>| #[trigger]
            r.running.contains_key(k) && r.running[k].pwsink_ports.contains(p)) || (exists|
            o: Seq<char>,
        | #[trigger]
            r.sessions.contains_key(o) && r.sessions[o].transport is PwSink
                && r.sessions[o].transport->control_port == p)),
{
    let gk = in_order(r.running.dom());
    let sk = in_order(r.sessions.dom());
    lemma_keys_of(r.running);
    lemma_keys_of(r.sessions);
    lemma_group_ports(gk, r.running, p);
    lemma_session_ports(sk, r.sessions, p);
    lemma_joined_ports(group_ports(gk, r.running), session_ports(sk, r.sessions));
    if exists|i: int| 0 <= i < gk.len() && r.running[#[trigger] gk[i]].pwsink_ports.contains(p) {
        let i = choose|i: int|
            0 <= i < gk.len() && r.running[#[trigger] gk[i]].pwsink_ports.contains(p);
        assert(gk.contains(gk[i]));
    }
    if exists|k: Seq<char>| #[trigger]
        r.running.contains_key(k) && r.running[k].pwsink_ports.contains(p) {
        let k = choose|k: Seq<char>| #[trigger]
            r.running.contains_key(k) && r.running[k].pwsink_ports.contains(p);
        assert(gk.contains(k));
        let i = choose|i: int| 0 <= i < gk.len() && gk[i] == k;
        assert(running_at(r, gk, i).pwsink_ports.contains(p));
    }
    if exists|i: int|
        0 <= i < sk.len() && r.sessions[#[trigger] sk[i]].transport is PwSink
            && r.sessions[sk[i]].transport->control_port == p {
        let i = choose|i: int|
            0 <= i < sk.len() && r.sessions[#[trigger] sk[i]].transport is PwSink
                && r.sessions[sk[i]].transport->control_port == p;
        assert(sk.contains(sk[i]));
    }
    if exists|o: Seq<char>| #[trigger]
        r.sessions.contains_key(o) && r.sessions[o].transport is PwSink
            && r.sessions[o].transport->control_port == p {
        let o = choose|o: Seq<char>| #[trigger]
            r.sessions.contains_key(o) && r.sessions[o].transport is PwSink
                && r.sessions[o].transport->control_port == p;
        assert(sk.contains(o));
        let i = choose|i: int| 0 <= i < sk.len() && sk[i] == o;
        assert(r.sessions[sk[i]].transport is PwSink);
    }
}

proof fn lemma_handles(
    part: Part,
    keys: Seq<Seq<char>>,
    running: Map<Seq<char>, RunningView>,
    h: u64,
)
    ensures
        handles_of(part, keys, running).contains(h) <==> exists|i: int|
            0 <= i < keys.len() && handle_of(part, running[#[trigger] keys[i]]) == Some(h),
    decreases keys.len(),
{
    if keys.len() > 0 {
        let front = keys.drop_last();
        lemma_handles(part, front, running, h);
        let before = handles_of(part, front, running);
        if handle_of(part, running[keys.last()]) is Some {
            lemma_push_contains(before, handle_of(part, running[keys.last()])->0);
        }
        if before.contains(h) {
            let i = choose|i: int|
                0 <= i < front.len() && handle_of(part, running[#[trigger] front[i]]) == Some(h);
            assert(keys[i] == front[i]);
        }
        if exists|i: int|
            0 <= i < keys.len() && handle_of(part, running[#[trigger] keys[i]]) == Some(h) {
            let i = choose|i: int|
                0 <= i < keys.len() && handle_of(part, running[#[trigger] keys[i]]) == Some(h);
            if i < front.len() {
                assert(front[i] == keys[i]);
            }
        }
        assert(keys[keys.len() - 1] == keys.last());
    }
}

/// Leaving ends every sender of the kind: each running group's is among those that
/// are given to end, and nothing else is.
pub proof fn law_leaving_ends_every_sender(r: RecView, h: u64)
    requires
        r.running.dom().finite(),
    ensures
        ({
            let keys = in_order(r.running.dom());
            &&& handles_of(Part::Sendspin, keys, r.running).contains(h) <==> exists|k: Seq<char>| #[trigger]
                r.running.contains_key(k) && r.running[k].server == Some(h)
            &&& handles_of(Part::Ap2, keys, r.running).contains(h) <==> exists|k: Seq<char>| #[trigger]
                r.running.contains_key(k) && r.running[k].ap2_sender == Some(h)
            &&& handles_of(Part::PwSink, keys, r.running).contains(h) <==> exists|k: Seq<char>| #[trigger]
                r.running.contains_key(k) && r.running[k].pwsink_server == Some(h)
        }),
{
    lemma_leaving(Part::Sendspin, r, h);
    lemma_leaving(Part::Ap2, r, h);
    lemma_leaving(Part::PwSink, r, h);
    assert forall|k: Seq<char>| #[trigger] r.running.contains_key(k) implies handle_of(
        Part::Sendspin,
        r.running[k],
    ) == r.running[k].server && handle_of(Part::Ap2, r.running[k]) == r.running[k].ap2_sender
        && handle_of(Part::PwSink, r.running[k]) == r.running[k].pwsink_server by {}
}

proof fn lemma_leaving(part: Part, r: RecView, h: u64)
    requires
        r.running.dom().finite(),
    ensures
        handles_of(part, in_order(r.running.dom()), r.running).contains(h) <==> exists|
            k: Seq<char>,
        | #[trigger]
            r.running.contains_key(k) && handle_of(part, r.running[k]) == Some(h),
{
    let keys = in_order(r.running.dom());
    lemma_keys_of(r.running);
    lemma_handles(part, keys, r.running, h);
    if exists|i: int|
        0 <= i < keys.len() && handle_of(part, r.running[#[trigger] keys[i]]) == Some(h) {
        let i = choose|i: int|
            0 <= i < keys.len() && handle_of(part, r.running[#[trigger] keys[i]]) == Some(h);
        assert(keys.contains(keys[i]));
    }
    if exists|k: Seq<char>| #[trigger]
        r.running.contains_key(k) && handle_of(part, r.running[k]) == Some(h) {
        let k = choose|k: Seq<char>| #[trigger]
            r.running.contains_key(k) && handle_of(part, r.running[k]) == Some(h);
        assert(keys.contains(k));
        let i = choose|i: int| 0 <= i < keys.len() && keys[i] == k;
        assert(handle_of(part, running_at(r, keys, i)) == Some(h));
    }
}

/// A group whose senders of one kind are gone plays to nobody of that kind and keeps
/// everything else.
pub proof fn law_a_part_leaves_alone(g: RunningView)
    ensures
        ({
            let a = without(Part::Sendspin, g);
            let b = without(Part::Ap2, g);
            let c = without(Part::PwSink, g);
            &&& a.server is None && a.server_devices.len() == 0 && a.server_members.len() == 0
                && a.force_device_reconnect == Set::<Seq<char>>::empty()
            &&& b.ap2_sender is None && b.ap2_members.len() == 0
            &&& c.pwsink_server is None && c.pwsink_members.len() == 0 && c.pwsink_ports.len() == 0
            &&& b.server == g.server && c.server == g.server
            &&& b.server_members == g.server_members && c.server_members == g.server_members
            &&& b.server_devices == g.server_devices && c.server_devices == g.server_devices
            &&& a.ap2_sender == g.ap2_sender && c.ap2_sender == g.ap2_sender
            &&& a.ap2_members == g.ap2_members && c.ap2_members == g.ap2_members
            &&& a.pwsink_server == g.pwsink_server && b.pwsink_server == g.pwsink_server
            &&& a.pwsink_members == g.pwsink_members && b.pwsink_members == g.pwsink_members
            &&& a.pwsink_ports == g.pwsink_ports && b.pwsink_ports == g.pwsink_ports
            &&& a.port == g.port && b.port == g.port && c.port == g.port
            &&& a.anchor_node_id == g.anchor_node_id && b.anchor_node_id == g.anchor_node_id
                && c.anchor_node_id == g.anchor_node_id
        }),
{
}

proof fn lemma_session_handles(
    keys: Seq<Seq<char>>,
    sessions: Map<Seq<char>, SessionView>,
    h: u64,
)
    ensures
        ap2_handles(keys, sessions).contains(h) <==> exists|i: int|
            0 <= i < keys.len() && sessions[#[trigger] keys[i]].transport == SessionTransport::Ap2(
                h,
            ),
        pwsink_handles(keys, sessions).contains(h) <==> exists|i: int|
            0 <= i < keys.len() && sessions[#[trigger] keys[i]].transport is PwSink
                && sessions[keys[i]].transport->server == h,
    decreases keys.len(),
{
    if keys.len() > 0 {
        let front = keys.drop_last();
        lemma_session_handles(front, sessions, h);
        let before1 = ap2_handles(front, sessions);
        let before2 = pwsink_handles(front, sessions);
        let last = sessions[keys.last()].transport;
        match last {
            SessionTransport::Ap2(x) => {
                lemma_push_contains(before1, x);
            },
            SessionTransport::PwSink { server, .. } => {
                lemma_push_contains(before2, server);
            },
        }
        assert(keys[keys.len() - 1] == keys.last());
        if before1.contains(h) {
            let i = choose|i: int|
                0 <= i < front.len() && sessions[#[trigger] front[i]].transport
                    == SessionTransport::Ap2(h);
            assert(keys[i] == front[i]);
        }
        if before2.contains(h) {
            let i = choose|i: int|
                0 <= i < front.len() && sessions[#[trigger] front[i]].transport is PwSink
                    && sessions[front[i]].transport->server == h;
            assert(keys[i] == front[i]);
        }
        if exists|i: int|
            0 <= i < keys.len() && sessions[#[trigger] keys[i]].transport == SessionTransport::Ap2(
                h,
            ) {
            let i = choose|i: int|
                0 <= i < keys.len() && sessions[#[trigger] keys[i]].transport
                    == SessionTransport::Ap2(h);
            if i < front.len() {
                assert(front[i] == keys[i]);
            }
        }
        if exists|i: int|
            0 <= i < keys.len() && sessions[#[trigger] keys[i]].transport is PwSink
                && sessions[keys[i]].transport->server == h {
            let i = choose|i: int|
                0 <= i < keys.len() && sessions[#[trigger] keys[i]].transport is PwSink
                    && sessions[keys[i]].transport->server == h;
            if i < front.len() {
                assert(front[i] == keys[i]);
            }
        }
    }
}

/// Leaving ends every on-demand session of the kind too: the sender of each session
/// to a receiver, or of each to a host, is among those that are given to end; those
/// that stay are exactly the sessions of the other kind.
pub proof fn law_leaving_ends_every_session(sessions: Map<Seq<char>, SessionView>, o: Seq<char>)
    requires
        sessions.dom().finite(),
        sessions.contains_key(o),
    ensures
        ({
            let keys = in_order(sessions.dom());
            &&& sessions[o].transport matches SessionTransport::Ap2(h) ==> ap2_handles(
                keys,
                sessions,
            ).contains(h) && !pwsink_sessions(sessions).contains_key(o) && ap2_sessions(
                sessions,
            ).contains_key(o) && ap2_sessions(sessions)[o] == sessions[o]
            &&& sessions[o].transport matches SessionTransport::PwSink {
                server,
                control_port,
            } ==> pwsink_handles(keys, sessions).contains(server) && !ap2_sessions(
                sessions,
            ).contains_key(o) && pwsink_sessions(sessions).contains_key(o) && pwsink_sessions(
                sessions,
            )[o] == sessions[o]
        }),
{
    let keys = in_order(sessions.dom());
    lemma_keys_of(sessions);
    assert(keys.contains(o));
    let i = choose|i: int| 0 <= i < keys.len() && keys[i] == o;
    match sessions[o].transport {
        SessionTransport::Ap2(h) => {
            lemma_session_handles(keys, sessions, h);
            assert(sessions[keys[i]].transport == SessionTransport::Ap2(h));
        },
        SessionTransport::PwSink { server, .. } => {
            lemma_session_handles(keys, sessions, server);
            assert(sessions[keys[i]].transport is PwSink);
        },
    }
}

/// A receiver is dialed for an announcement exactly where it is known, online and has
/// an address, and then at that address.
pub proof fn law_announcements_dial_receivers_that_answer(device: Option<&Ap2Device>)
    ensures
        target_of(device) is Ok <==> device is Some && device->0.present && device->0.addr is Some,
        target_of(device) is Ok ==> target_of(device)->Ok_0 == (device->0.addr->0).0,
{
}

proof fn lemma_leads(keys: Seq<Seq<char>>, running: Map<Seq<char>, RunningView>, lead: i64)
    ensures
        leads_of(keys, running).contains(lead) <==> exists|i: int|
            0 <= i < keys.len() && running[#[trigger] keys[i]].server is Some
                && running[keys[i]].server_send_ahead_us == lead,
        leads_of(keys, running).len() <= keys.len(),
        (forall|i: int| 0 <= i < keys.len() ==> running[#[trigger] keys[i]].server is Some)
            ==> leads_of(keys, running).len() == keys.len(),
    decreases keys.len(),
{
    if keys.len() > 0 {
        let front = keys.drop_last();
        lemma_leads(front, running, lead);
        let before = leads_of(front, running);
        let g = running[keys.last()];
        if g.server is Some {
            lemma_push_contains(before, g.server_send_ahead_us);
        }
        assert(keys[keys.len() - 1] == keys.last());
        if before.contains(lead) {
            let i = choose|i: int|
                0 <= i < front.len() && running[#[trigger] front[i]].server is Some
                    && running[front[i]].server_send_ahead_us == lead;
            assert(keys[i] == front[i]);
        }
        if exists|i: int|
            0 <= i < keys.len() && running[#[trigger] keys[i]].server is Some
                && running[keys[i]].server_send_ahead_us == lead {
            let i = choose|i: int|
                0 <= i < keys.len() && running[#[trigger] keys[i]].server is Some
                    && running[keys[i]].server_send_ahead_us == lead;
            if i < front.len() {
                assert(front[i] == keys[i]);
            }
        }
        if forall|i: int| 0 <= i < keys.len() ==> running[#[trigger] keys[i]].server is Some {
            assert forall|i: int| 0 <= i < front.len() implies running[
                #[trigger] front[i]
            ].server is Some by {
                assert(running[keys[i]].server is Some);
            }
            assert(running[keys[keys.len() - 1]].server is Some);
        }
    }
}

/// The leads in force are those of the servers that run, each of them and no others.
pub proof fn law_leads_in_force_are_those_of_servers(r: RecView, lead: i64)
    requires
        r.running.dom().finite(),
    ensures
        leads_of(in_order(r.running.dom()), r.running).contains(lead) <==> exists|k: Seq<char>| #[trigger]
            r.running.contains_key(k) && r.running[k].server is Some
                && r.running[k].server_send_ahead_us == lead,
{
    let keys = in_order(r.running.dom());
    lemma_keys_of(r.running);
    lemma_leads(keys, r.running, lead);
    if exists|i: int|
        0 <= i < keys.len() && r.running[#[trigger] keys[i]].server is Some
            && r.running[keys[i]].server_send_ahead_us == lead {
        let i = choose|i: int|
            0 <= i < keys.len() && r.running[#[trigger] keys[i]].server is Some
                && r.running[keys[i]].server_send_ahead_us == lead;
        assert(keys.contains(keys[i]));
    }
    if exists|k: Seq<char>| #[trigger]
        r.running.contains_key(k) && r.running[k].server is Some
            && r.running[k].server_send_ahead_us == lead {
        let k = choose|k: Seq<char>| #[trigger]
            r.running.contains_key(k) && r.running[k].server is Some
                && r.running[k].server_send_ahead_us == lead;
        assert(keys.contains(k));
        let i = choose|i: int| 0 <= i < keys.len() && keys[i] == k;
        assert(running_at(r, keys, i).server is Some);
    }
}

/// A snapshot lists a group as it runs: its sources, its anchor's node, the devices
/// its server plays to and its receivers.
pub proof fn law_a_snapshot_shows_the_group(sources: Seq<Seq<char>>, g: RunningView)
    requires
        sorted_names(sources),
        sources.len() > 0,
        forall|i: int| 0 <= i < sources.len() ==> !(#[trigger] sources[i]).contains(KEY_SEP),
    ensures
        ({
            let shown = snapshot_of(crate::groups::key_spec(sources.to_set()), g);
            &&& shown.sources == sources
            &&& shown.anchor_node_id == g.anchor_node_id
            &&& shown.sendspin_members == g.server_devices
            &&& shown.ap2_members == g.ap2_members
        }),
{
    crate::groups::law_keys_tell_their_sources(sources);
}

/// A host gets a control port for an announcement exactly where its agent is connected
/// and some port is free; the port is clear of every one that is held, by at least two
/// on either side, and from the base on.
pub proof fn law_a_connected_host_gets_a_port(r: RecView, k: int, q: int)
    requires
        6200 <= q < 65534,
        q % 2 == 0,
    ensures
        ({
            let port = control_port_or_why(r, true);
            let held = held_ports(r);
            &&& control_port_or_why(r, false) is Err
            &&& port is Ok && 0 <= k < held.len() ==> port->Ok_0 >= held[k] + 2 || port->Ok_0 + 2
                <= held[k]
            &&& port is Ok ==> port->Ok_0 >= 6200
            &&& port is Err ==> exists|j: int|
                0 <= j < held.len() && !(q >= held[j] + 2 || q + 2 <= #[trigger] held[j])
        }),
{
    let held = held_ports(r);
    let free = free_pairs(held, PWSINK_BASE_PORT as int, 1);
    if free.len() > 0 && 0 <= k < held.len() {
        law_given_ports_keep_their_distance(held, PWSINK_BASE_PORT as int, 1, 0, k);
    }
    if free.len() > 0 {
        law_given_ports_are_free(held, PWSINK_BASE_PORT as int, 1);
        assert(free[0] >= PWSINK_BASE_PORT);
    }
    if free.len() == 0 {
        if forall|j: int| 0 <= j < held.len() ==> q >= (#[trigger] held[j]) + 2 || q + 2 <= held[j] {
            law_no_free_port_is_passed_over(held, PWSINK_BASE_PORT as int, 1, q);
        }
    }
}

/// An alignment gives up its own hold and no other's, and one that takes nothing holds
/// nothing.
pub proof fn law_a_hold_is_given_up_by_its_owner(
    held: u64,
    taken: Set<Seq<char>>,
    id: u64,
)
    ensures
        hold_cleared(Some((held, taken)), held) is None,
        id != held ==> hold_cleared(Some((held, taken)), id) == Some((held, taken)),
        hold_cleared(None, id) is None,
        hold_set(id, Set::empty()) is None,
        taken != Set::<Seq<char>>::empty() ==> hold_set(id, taken) == Some((id, taken)),
{
}

} // verus!
