//! One pass of the reconciler: what is torn down, what is started, and in which
//! order.
//!
//! A pass first ends what is not wanted any more, so that no endpoint is ever
//! dialed twice. Then it goes through the groups that are called for, one after the
//! other, and at last through the devices that keep an idle sender.

use crate::announce::{free_pairs, IDLE_SINK_PREFIX, PWSINK_BASE_PORT};
use crate::devices::{Ap2Device, SendspinDevice};
use crate::groups::{ap2_dials, codec_for, compute_desired, copy_names, dials, display_of, fed_by, group_display, group_hash, group_of, key_number, key_of, lead_for, lemma_filter_contains, lemma_group_has, lemma_routed_key, reached, settle, settled, stream_for, Ap2Dial, Ap2Member, DesiredGroup, DesiredView, Member, SyncSettings, KEY_SEP};
use crate::maps::{in_order, lemma_in_order, lemma_push_contains, lemma_set_in_order, lemma_take_next, sorted_names, NameMap, NameSet};
use crate::names::{display_name, output_display_name, AP2_DEV_PREFIX, SENDSPIN_DEV_PREFIX, SYNC_GRP_PREFIX};
use crate::reconciler::{act, acts, clear_part, config_changed, copy_members, effective, end_sessions, has_free_port, has_name, held_ports, is_lowest_free, no_actions, port_used, push_all, pwsink_dials, sendspin_config_changed, sendspin_lead_rearm, sendspin_server_action, server_action, without, Action, ActionView, Event, GroupReconciler, IdleSender, IdleView, Part, PwSinkDial, PwSinkMember, RecView, RunningGroup, RunningView, SendspinServerState, ServerAction, SessionTransport, SessionView};
use crate::routing::{law_adoption_gates_routes, links_to, routes, routes_to, Route, RoutingLink};
use crate::sendspin::{same_names, StreamPolicy};
use crate::text::{hex, joined2, same, starts_with, strip_prefix, stripped, views};
use vstd::prelude::*;

verus! {

/// What an idle sender is started with.
pub struct IdlePlan {
    pub fullname: String,
    /// Where the device is dialed, once that is resolved.
    pub url: Option<String>,
    pub codec: &'static str,
    pub send_ahead_us: i64,
}

/// The model of an [`IdlePlan`].
pub ghost struct IdlePlanView {
    pub fullname: Seq<char>,
    pub url: Option<Seq<char>>,
    pub codec: Seq<char>,
    pub send_ahead_us: i64,
}

impl IdlePlan {
    pub open spec fn view(&self) -> IdlePlanView {
        IdlePlanView {
            fullname: self.fullname@,
            url: crate::text::opt_view(self.url),
            codec: self.codec@,
            send_ahead_us: self.send_ahead_us,
        }
    }
}

/// Where a pass is. The number is that of the group or the device.
#[derive(Clone, Copy, Debug, PartialEq, Eq, Structural)]
pub enum Stage {
    /// A group needs its anchor.
    Anchor(usize),
    /// Its anchor was asked for.
    Anchored(usize),
    /// Its sources are linked and its server is looked at.
    Steer(usize),
    /// Its server was asked for.
    Serving(usize),
    /// Its members are brought up to date; whether its server was just started.
    Members(usize, bool),
    /// Its AirPlay senders are looked at.
    Ap2(usize),
    /// Its AirPlay senders were asked for.
    Ap2Started(usize),
    /// Its senders to remote hosts are looked at.
    PwSink(usize),
    /// Its senders to remote hosts were asked for.
    PwSinkStarted(usize),
    /// A device needs its idle sender.
    Idle(usize),
    /// Its sink was asked for.
    IdleSink(usize),
    /// Its sender was asked for, on this node and this port.
    IdleStarted(usize, u32, u16),
    Finished,
}

/// A pass.
pub struct Pass {
    /// The groups that are called for.
    pub desired: NameMap<DesiredGroup>,
    /// The devices that keep an idle sender.
    pub idle: NameMap<IdlePlan>,
    /// The instance names of the devices.
    pub fullnames: NameMap<String>,
    /// Playout delays of remote hosts.
    pub jitters: NameMap<u16>,
    pub default_jitter_ms: u16,
    /// Groups are brought to the lead that is wanted.
    pub rearm: bool,
    pub stage: Stage,
    /// The control ports that were given out last.
    pub ports: Vec<u16>,
}

/// The model of a [`Pass`].
#[verifier::ext_equal]
pub ghost struct PassView {
    pub desired: Map<Seq<char>, DesiredView>,
    pub keys: Seq<Seq<char>>,
    pub idle: Map<Seq<char>, IdlePlanView>,
    pub idle_keys: Seq<Seq<char>>,
    pub fullnames: Map<Seq<char>, Seq<char>>,
    pub jitters: Map<Seq<char>, u16>,
    pub default_jitter_ms: u16,
    pub rearm: bool,
    pub stage: Stage,
    pub ports: Seq<u16>,
}

/// The models of groups that are called for.
pub open spec fn desired_views(m: Map<Seq<char>, DesiredGroup>) -> Map<Seq<char>, DesiredView> {
    m.map_values(|g: DesiredGroup| g@)
}

/// The models of plans.
pub open spec fn plan_views(m: Map<Seq<char>, IdlePlan>) -> Map<Seq<char>, IdlePlanView> {
    m.map_values(|g: IdlePlan| g@)
}

/// The views of names.
pub open spec fn text_views(m: Map<Seq<char>, String>) -> Map<Seq<char>, Seq<char>> {
    m.map_values(|s: String| s@)
}

impl Pass {
    pub open spec fn view(&self) -> PassView {
        PassView {
            desired: desired_views(self.desired@),
            keys: self.desired.names(),
            idle: plan_views(self.idle@),
            idle_keys: self.idle.names(),
            fullnames: text_views(self.fullnames@),
            jitters: self.jitters@,
            default_jitter_ms: self.default_jitter_ms,
            rearm: self.rearm,
            stage: self.stage,
            ports: self.ports@,
        }
    }
}

// ---- the machine -----------------------------------------------------------------------

/// The sink that is the clock of the group `key`.
pub open spec fn anchor_name(key: Seq<char>) -> Seq<char> {
    SYNC_GRP_PREFIX@ + hex(key_number(key) as int, 16)
}

/// The lowest free port.
pub open spec fn free_port(r: RecView) -> u16 {
    choose|p: u16| is_lowest_free(r, p)
}

/// A group with an anchor and nothing else.
pub open spec fn fresh_group(key: Seq<char>, node_id: u32, port: u16) -> RunningView {
    RunningView {
        anchor_node_name: anchor_name(key),
        anchor_node_id: node_id,
        port,
        server: None,
        server_devices: Seq::empty(),
        server_members: Seq::empty(),
        server_codec: "pcm"@,
        server_send_ahead_us: 0,
        force_device_reconnect: Set::empty(),
        ap2_sender: None,
        ap2_members: Seq::empty(),
        ap2_rate: 48_000,
        pwsink_server: None,
        pwsink_members: Seq::empty(),
        pwsink_ports: Seq::empty(),
    }
}

/// The same, with the group under `key` replaced.
pub open spec fn with_group(r: RecView, key: Seq<char>, g: RunningView) -> RecView {
    RecView { running: r.running.insert(key, g), ..r }
}

/// The same, with another pass wanted.
pub open spec fn with_retry(r: RecView) -> RecView {
    RecView { retry: true, ..r }
}

/// The same pass at another stage.
pub open spec fn at_stage(p: PassView, stage: Stage) -> PassView {
    PassView { stage, ..p }
}

/// The stage behind the group `i`.
pub open spec fn behind(p: PassView, i: usize) -> Stage {
    if i < p.keys.len() {
        Stage::Anchor((i + 1) as usize)
    } else {
        Stage::Idle(0)
    }
}

/// The group `i` is called for and runs.
pub open spec fn group_runs(p: PassView, r: RecView, i: usize) -> bool {
    i < p.keys.len() && r.running.contains_key(p.keys[i as int])
}

/// What comes out of one step: the pass, the reconciler and what is to be done.
pub type Step = (PassView, RecView, Seq<ActionView>);

/// The group `i` gets its anchor, where it has none.
pub open spec fn anchor_step(p: PassView, r: RecView, i: usize) -> Step {
    if i >= p.keys.len() {
        (at_stage(p, Stage::Idle(0)), r, Seq::empty())
    } else if r.running.contains_key(p.keys[i as int]) {
        (at_stage(p, Stage::Steer(i)), r, Seq::empty())
    } else {
        (
            at_stage(p, Stage::Anchored(i)),
            r,
            seq![ActionView::CreateSink { node_name: anchor_name(p.keys[i as int]) }],
        )
    }
}

/// The anchor appeared: the group runs. Else it is passed over, and where the
/// graph failed another pass is wanted.
pub open spec fn anchored_step(p: PassView, r: RecView, i: usize, e: Event) -> Step {
    if i >= p.keys.len() {
        (at_stage(p, Stage::Idle(0)), r, Seq::empty())
    } else {
        let key = p.keys[i as int];
        match e {
            Event::Node(Some(id)) => (
                at_stage(p, Stage::Steer(i)),
                with_group(r, key, fresh_group(key, id, free_port(r))),
                Seq::empty(),
            ),
            Event::Unreachable => (at_stage(p, behind(p, i)), r, Seq::empty()),
            _ => (at_stage(p, behind(p, i)), with_retry(r), Seq::empty()),
        }
    }
}

/// Ending a server, where it runs.
pub open spec fn stop_server(g: RunningView) -> Seq<ActionView> {
    match g.server {
        Some(server) => seq![ActionView::StopServer { server }],
        None => Seq::empty(),
    }
}

/// Linking every source into the anchor.
pub open spec fn link_sources(d: DesiredView, g: RunningView) -> Seq<ActionView> {
    d.sources.map_values(
        |s: Seq<char>| ActionView::Link { source: s, sink: g.anchor_node_name },
    )
}

/// What is to become of a group's server.
pub open spec fn group_action(p: PassView, d: DesiredView, g: RunningView) -> ServerAction {
    server_action(
        SendspinServerState {
            routed: d.sendspin_node_names.len() > 0,
            have_server: g.server is Some,
            config_changed: config_changed(
                g.server_codec,
                g.server_send_ahead_us,
                d.sendspin_codec,
                d.sendspin_send_ahead_us,
            ) || (p.rearm && g.server_send_ahead_us != d.sendspin_send_ahead_us),
        },
    )
}

/// Starting a group's server.
pub open spec fn start_server(d: DesiredView, g: RunningView) -> ActionView {
    ActionView::StartServer {
        sink_node_name: g.anchor_node_name,
        display: display_of(d.sendspin_node_names),
        port: g.port,
        node_id: g.anchor_node_id,
        members: d.sendspin_members,
        send_ahead_us: d.sendspin_send_ahead_us,
        policy: StreamPolicy::Always,
        codec: d.sendspin_codec,
    }
}

/// The sources are linked, and the server is ended or started as is called for.
pub open spec fn steer_step(p: PassView, r: RecView, i: usize) -> Step {
    if !group_runs(p, r, i) {
        (at_stage(p, behind(p, i)), r, Seq::empty())
    } else {
        let key = p.keys[i as int];
        let d = p.desired[key];
        let g = r.running[key];
        match group_action(p, d, g) {
            ServerAction::Start => (
                at_stage(p, Stage::Serving(i)),
                with_group(r, key, without(Part::Sendspin, g)),
                link_sources(d, g) + stop_server(g) + seq![start_server(d, g)],
            ),
            ServerAction::Stop => (
                at_stage(p, Stage::Members(i, false)),
                with_group(r, key, without(Part::Sendspin, g)),
                link_sources(d, g) + stop_server(g),
            ),
            _ => (at_stage(p, Stage::Members(i, false)), r, link_sources(d, g)),
        }
    }
}

/// The server started, or another pass is wanted.
pub open spec fn serving_step(p: PassView, r: RecView, i: usize, e: Event) -> Step {
    if !group_runs(p, r, i) {
        (at_stage(p, behind(p, i)), r, Seq::empty())
    } else {
        let key = p.keys[i as int];
        let d = p.desired[key];
        let g = r.running[key];
        match e {
            Event::Started(Some(h)) => (
                at_stage(p, Stage::Members(i, true)),
                with_group(
                    r,
                    key,
                    RunningView {
                        server: Some(h),
                        server_codec: d.sendspin_codec,
                        server_send_ahead_us: d.sendspin_send_ahead_us,
                        ..g
                    },
                ),
                Seq::empty(),
            ),
            _ => (at_stage(p, Stage::Members(i, true)), with_retry(r), Seq::empty()),
        }
    }
}

/// Whether one of the members has this instance name.
pub open spec fn dials_name(members: Seq<Route>, fullname: Seq<char>) -> bool {
    exists|k: int| 0 <= k < members.len() && (#[trigger] members[k]).0 == fullname
}

/// Ending the stream of each of the first `n` members that is not wanted any more.
pub open spec fn stop_departed(server: u64, before: Seq<Route>, wanted: Seq<Route>, n: int) -> Seq<
    ActionView,
>
    decreases
            if n > 0 {
                n
            } else {
                0
            },
{
    if n <= 0 {
        Seq::empty()
    } else {
        let rest = stop_departed(server, before, wanted, n - 1);
        if dials_name(wanted, before[n - 1].0) {
            rest
        } else {
            rest.push(ActionView::StopDevice { server, fullname: before[n - 1].0 })
        }
    }
}

/// Bringing the members of a running server up to date.
pub open spec fn member_changes(d: DesiredView, g: RunningView, restarted: bool) -> Seq<ActionView> {
    match g.server {
        Some(server) => if restarted || g.server_members == d.sendspin_members {
            Seq::empty()
        } else {
            stop_departed(server, g.server_members, d.sendspin_members, g.server_members.len() as int).push(
                ActionView::Supervise { server, members: d.sendspin_members },
            )
        },
        None => Seq::empty(),
    }
}

/// The group with the members it is called for noted, where its server runs.
pub open spec fn noted(d: DesiredView, g: RunningView) -> RunningView {
    if g.server is Some {
        RunningView {
            server_devices: d.sendspin_node_names,
            server_members: d.sendspin_members,
            ..g
        }
    } else {
        g
    }
}

/// The instance names of the devices, out of the first `n`, whose own connection is
/// renewed: those the group dials.
pub open spec fn renewed(
    fullnames: Map<Seq<char>, Seq<char>>,
    members: Seq<Route>,
    devices: Seq<Seq<char>>,
    n: int,
) -> Seq<Seq<char>>
    decreases
            if n > 0 {
                n
            } else {
                0
            },
{
    if n <= 0 {
        Seq::empty()
    } else {
        let rest = renewed(fullnames, members, devices, n - 1);
        let dev = devices[n - 1];
        if fullnames.contains_key(dev) && dials_name(members, fullnames[dev]) {
            rest.push(fullnames[dev])
        } else {
            rest
        }
    }
}

/// The members that are not among `gone`.
pub open spec fn remaining(members: Seq<Route>, gone: Seq<Seq<char>>) -> Seq<Route> {
    members.filter(|m: Route| !gone.contains(m.0))
}

/// Ending the streams of the named members of a server that runs.
pub open spec fn stop_each(g: RunningView, names: Seq<Seq<char>>) -> Seq<ActionView> {
    match g.server {
        Some(server) => names.map_values(
            |f: Seq<char>| ActionView::StopDevice { server, fullname: f },
        ),
        None => Seq::empty(),
    }
}

/// Who plays is brought up to date, and devices that were marked are ended, so that
/// the next pass dials them anew.
pub open spec fn members_step(p: PassView, r: RecView, i: usize, restarted: bool) -> Step {
    if !group_runs(p, r, i) {
        (at_stage(p, behind(p, i)), r, Seq::empty())
    } else {
        let key = p.keys[i as int];
        let d = p.desired[key];
        let g = r.running[key];
        let forced = in_order(g.force_device_reconnect);
        let gone = renewed(p.fullnames, d.sendspin_members, forced, forced.len() as int);
        let next = noted(d, g);
        let after = RunningView {
            force_device_reconnect: Set::empty(),
            server_members: remaining(next.server_members, gone),
            ..next
        };
        let done = with_group(r, key, after);
        (
            at_stage(p, Stage::Ap2(i)),
            if gone.len() > 0 {
                with_retry(done)
            } else {
                done
            },
            member_changes(d, g, restarted) + stop_each(g, gone),
        )
    }
}

/// The names of the receivers.
pub open spec fn receiver_names(members: Seq<Ap2Dial>) -> Seq<Seq<char>> {
    members.map_values(|m: Ap2Dial| m.0)
}

/// The AirPlay senders are started anew where the receivers or the rate changed. A
/// delay alone is no reason.
pub open spec fn ap2_step(p: PassView, r: RecView, i: usize) -> Step {
    if !group_runs(p, r, i) {
        (at_stage(p, behind(p, i)), r, Seq::empty())
    } else {
        let key = p.keys[i as int];
        let d = p.desired[key];
        let g = r.running[key];
        if receiver_names(d.ap2_members) == g.ap2_members && d.ap2_rate == g.ap2_rate {
            (at_stage(p, Stage::PwSink(i)), r, Seq::empty())
        } else {
            let dropped = match g.ap2_sender {
                Some(sender) => seq![ActionView::DropAp2 { sender }],
                None => Seq::empty(),
            };
            let r2 = with_group(r, key, without(Part::Ap2, g));
            if d.ap2_members.len() == 0 {
                (at_stage(p, Stage::PwSink(i)), r2, dropped)
            } else {
                (
                    at_stage(p, Stage::Ap2Started(i)),
                    r2,
                    dropped.push(
                        ActionView::StartAp2 {
                            members: d.ap2_members,
                            node_id: g.anchor_node_id,
                            rate: d.ap2_rate,
                        },
                    ),
                )
            }
        }
    }
}

/// The AirPlay senders started, or another pass is wanted.
pub open spec fn ap2_started_step(p: PassView, r: RecView, i: usize, e: Event) -> Step {
    if !group_runs(p, r, i) {
        (at_stage(p, behind(p, i)), r, Seq::empty())
    } else {
        let key = p.keys[i as int];
        let d = p.desired[key];
        let g = r.running[key];
        match e {
            Event::Started(Some(h)) => (
                at_stage(p, Stage::PwSink(i)),
                with_group(
                    r,
                    key,
                    RunningView {
                        ap2_sender: Some(h),
                        ap2_members: receiver_names(d.ap2_members),
                        ap2_rate: d.ap2_rate,
                        ..g
                    },
                ),
                Seq::empty(),
            ),
            _ => (at_stage(p, Stage::PwSink(i)), with_retry(r), Seq::empty()),
        }
    }
}

/// The playout delay of a remote host.
pub open spec fn jitter_of(p: PassView, name: Seq<char>) -> u16 {
    if p.jitters.contains_key(name) {
        p.jitters[name]
    } else {
        p.default_jitter_ms
    }
}

/// The hosts with their control ports, as far as there are ports.
pub open spec fn hosts_on(p: PassView, names: Seq<Seq<char>>, ports: Seq<u16>) -> Seq<PwSinkDial> {
    Seq::new(
        if ports.len() < names.len() {
            ports.len()
        } else {
            names.len()
        },
        |k: int| (names[k], ports[k], jitter_of(p, names[k])),
    )
}

/// The senders to remote hosts are started anew, on new ports, where the hosts
/// changed.
pub open spec fn pwsink_step(p: PassView, r: RecView, i: usize) -> Step {
    if !group_runs(p, r, i) {
        (at_stage(p, behind(p, i)), r, Seq::empty())
    } else {
        let key = p.keys[i as int];
        let d = p.desired[key];
        let g = r.running[key];
        if d.pwsink_members == g.pwsink_members {
            (at_stage(p, behind(p, i)), r, Seq::empty())
        } else {
            let dropped = match g.pwsink_server {
                Some(server) => seq![ActionView::DropPwSink { server }],
                None => Seq::empty(),
            };
            let r2 = with_group(r, key, without(Part::PwSink, g));
            if d.pwsink_members.len() == 0 {
                (at_stage(p, behind(p, i)), r2, dropped)
            } else {
                let ports = free_pairs(
                    held_ports(r2),
                    PWSINK_BASE_PORT as int,
                    d.pwsink_members.len(),
                );
                (
                    PassView { stage: Stage::PwSinkStarted(i), ports, ..p },
                    r2,
                    dropped.push(
                        ActionView::StartPwSink {
                            members: hosts_on(p, d.pwsink_members, ports),
                            node_id: g.anchor_node_id,
                        },
                    ),
                )
            }
        }
    }
}

/// The senders to remote hosts started, or another pass is wanted.
pub open spec fn pwsink_started_step(p: PassView, r: RecView, i: usize, e: Event) -> Step {
    if !group_runs(p, r, i) {
        (at_stage(p, behind(p, i)), r, Seq::empty())
    } else {
        let key = p.keys[i as int];
        let d = p.desired[key];
        let g = r.running[key];
        match e {
            Event::Started(Some(h)) => (
                at_stage(p, behind(p, i)),
                with_group(
                    r,
                    key,
                    RunningView {
                        pwsink_server: Some(h),
                        pwsink_members: d.pwsink_members,
                        pwsink_ports: p.ports,
                        ..g
                    },
                ),
                Seq::empty(),
            ),
            _ => (at_stage(p, behind(p, i)), with_retry(r), Seq::empty()),
        }
    }
}

/// The private sink of a device's idle sender.
pub open spec fn idle_sink(dev: Seq<char>) -> Seq<char> {
    IDLE_SINK_PREFIX@ + match stripped(dev, SENDSPIN_DEV_PREFIX@) {
        Some(rest) => rest,
        None => dev,
    }
}

/// The device `j` gets an idle sender, where it has none.
pub open spec fn idle_step(p: PassView, r: RecView, j: usize) -> Step {
    if j >= p.idle_keys.len() {
        (at_stage(p, Stage::Finished), r, Seq::empty())
    } else if r.idle.contains_key(p.idle_keys[j as int]) {
        (at_stage(p, Stage::Idle((j + 1) as usize)), r, Seq::empty())
    } else {
        (
            at_stage(p, Stage::IdleSink(j)),
            r,
            seq![ActionView::CreateSink { node_name: idle_sink(p.idle_keys[j as int]) }],
        )
    }
}

/// Its sink appeared: its sender is started, where its address is known.
pub open spec fn idle_sink_step(p: PassView, r: RecView, j: usize, e: Event) -> Step {
    if j >= p.idle_keys.len() {
        (at_stage(p, Stage::Finished), r, Seq::empty())
    } else {
        let dev = p.idle_keys[j as int];
        let plan = p.idle[dev];
        let next = at_stage(p, Stage::Idle((j + 1) as usize));
        match e {
            Event::Node(Some(id)) => match plan.url {
                Some(url) => (
                    at_stage(p, Stage::IdleStarted(j, id, free_port(r))),
                    r,
                    seq![
                        ActionView::StartServer {
                            sink_node_name: idle_sink(dev),
                            display: "idle: "@ + display_name(dev),
                            port: free_port(r),
                            node_id: id,
                            members: seq![(plan.fullname, url)],
                            send_ahead_us: plan.send_ahead_us,
                            policy: StreamPolicy::WhenAnnounced,
                            codec: plan.codec,
                        },
                    ],
                ),
                None => (next, with_retry(r), Seq::empty()),
            },
            Event::Unreachable => (next, r, Seq::empty()),
            _ => (next, with_retry(r), Seq::empty()),
        }
    }
}

/// Its sender started; else its sink is taken away and another pass is wanted.
pub open spec fn idle_started_step(
    p: PassView,
    r: RecView,
    j: usize,
    id: u32,
    port: u16,
    e: Event,
) -> Step {
    if j >= p.idle_keys.len() {
        (at_stage(p, Stage::Finished), r, Seq::empty())
    } else {
        let dev = p.idle_keys[j as int];
        let next = at_stage(p, Stage::Idle((j + 1) as usize));
        match e {
            Event::Started(Some(h)) => (
                next,
                RecView {
                    idle: r.idle.insert(
                        dev,
                        IdleView {
                            sink_node_name: idle_sink(dev),
                            sink_node_id: id,
                            port,
                            server: h,
                        },
                    ),
                    ..r
                },
                Seq::empty(),
            ),
            _ => (next, with_retry(r), seq![ActionView::DestroySink { node_id: id }]),
        }
    }
}

/// One step of a pass, from what the last action came to.
pub open spec fn step(p: PassView, r: RecView, e: Event) -> Step {
    match p.stage {
        Stage::Anchor(i) => anchor_step(p, r, i),
        Stage::Anchored(i) => anchored_step(p, r, i, e),
        Stage::Steer(i) => steer_step(p, r, i),
        Stage::Serving(i) => serving_step(p, r, i, e),
        Stage::Members(i, restarted) => members_step(p, r, i, restarted),
        Stage::Ap2(i) => ap2_step(p, r, i),
        Stage::Ap2Started(i) => ap2_started_step(p, r, i, e),
        Stage::PwSink(i) => pwsink_step(p, r, i),
        Stage::PwSinkStarted(i) => pwsink_started_step(p, r, i, e),
        Stage::Idle(j) => idle_step(p, r, j),
        Stage::IdleSink(j) => idle_sink_step(p, r, j, e),
        Stage::IdleStarted(j, id, port) => idle_started_step(p, r, j, id, port, e),
        Stage::Finished => (p, r, Seq::empty()),
    }
}

proof fn lemma_lowest_port(r: RecView, p: u16)
    requires
        is_lowest_free(r, p),
    ensures
        free_port(r) == p,
{
    let q = free_port(r);
    assert(is_lowest_free(r, q));
    if q < p {
        assert(port_used(r, q));
    }
    if p < q {
        assert(port_used(r, p));
    }
}

fn anchor_name_for(key: &str) -> (r: String)
    ensures
        r@ == anchor_name(key@),
{
    joined2(SYNC_GRP_PREFIX, &group_hash(key))
}

fn idle_sink_for(dev: &str) -> (r: String)
    ensures
        r@ == idle_sink(dev@),
{
    match strip_prefix(dev, SENDSPIN_DEV_PREFIX) {
        Some(rest) => joined2(IDLE_SINK_PREFIX, &rest),
        None => joined2(IDLE_SINK_PREFIX, dev),
    }
}

fn same_member(a: &Member, b: &Member) -> (r: bool)
    ensures
        r == (a@ == b@),
{
    same(&a.fullname, &b.fullname) && same(&a.url, &b.url)
}

fn same_members(a: &Vec<Member>, b: &Vec<Member>) -> (r: bool)
    ensures
        r == (dials(a@) == dials(b@)),
{
    if a.len() != b.len() {
        assert(dials(a@).len() != dials(b@).len());
        return false;
    }
    let mut i: usize = 0;
    while i < a.len()
        invariant
            i <= a@.len(),
            a@.len() == b@.len(),
            forall|j: int| 0 <= j < i ==> #[trigger] dials(a@)[j] == dials(b@)[j],
        decreases a.len() - i,
    {
        if !same_member(&a[i], &b[i]) {
            assert(dials(a@)[i as int] != dials(b@)[i as int]);
            return false;
        }
        i += 1;
    }
    assert(dials(a@) =~= dials(b@));
    true
}

fn dials_fullname(members: &Vec<Member>, fullname: &str) -> (r: bool)
    ensures
        r == dials_name(dials(members@), fullname@),
{
    let mut i: usize = 0;
    while i < members.len()
        invariant
            i <= members@.len(),
            forall|j: int| 0 <= j < i ==> (#[trigger] dials(members@)[j]).0 != fullname@,
        decreases members.len() - i,
    {
        if same(&members[i].fullname, fullname) {
            assert(dials(members@)[i as int].0 == fullname@);
            return true;
        }
        i += 1;
    }
    false
}

fn names_of(members: &Vec<Ap2Member>) -> (r: Vec<String>)
    ensures
        views(r@) == receiver_names(ap2_dials(members@)),
{
    let mut out: Vec<String> = Vec::new();
    let mut i: usize = 0;
    while i < members.len()
        invariant
            i <= members@.len(),
            out@.len() == i,
            forall|j: int| 0 <= j < i ==> (#[trigger] out@[j])@ == members@[j].node_name@,
        decreases members.len() - i,
    {
        out.push(members[i].node_name.clone());
        i += 1;
    }
    assert(views(out@) =~= receiver_names(ap2_dials(members@)));
    out
}

fn copy_receivers(members: &Vec<Ap2Member>) -> (r: Vec<Ap2Member>)
    ensures
        ap2_dials(r@) == ap2_dials(members@),
{
    let mut out: Vec<Ap2Member> = Vec::new();
    let mut i: usize = 0;
    while i < members.len()
        invariant
            i <= members@.len(),
            out@.len() == i,
            forall|j: int| 0 <= j < i ==> (#[trigger] out@[j])@ == members@[j]@,
        decreases members.len() - i,
    {
        out.push(members[i].copy());
        i += 1;
    }
    assert(ap2_dials(out@) =~= ap2_dials(members@));
    out
}

fn link_all(d: &DesiredGroup, sink: &str) -> (r: Vec<Action>)
    ensures
        acts(r@) == d@.sources.map_values(
            |s: Seq<char>| ActionView::Link { source: s, sink: sink@ },
        ),
{
    let mut out: Vec<Action> = Vec::new();
    let mut i: usize = 0;
    while i < d.sources.len()
        invariant
            i <= d.sources@.len(),
            out@.len() == i,
            forall|j: int|
                0 <= j < i ==> (#[trigger] out@[j])@ == (ActionView::Link {
                    source: d.sources@[j]@,
                    sink: sink@,
                }),
        decreases d.sources.len() - i,
    {
        out.push(Action::Link { source: d.sources[i].clone(), sink: sink.to_string() });
        i += 1;
    }
    assert(acts(out@) =~= d@.sources.map_values(
        |s: Seq<char>| ActionView::Link { source: s, sink: sink@ },
    ));
    out
}

fn stop_departed_members(server: u64, before: &Vec<Member>, wanted: &Vec<Member>) -> (r: Vec<Action>)
    ensures
        acts(r@) == stop_departed(server, dials(before@), dials(wanted@), before@.len() as int),
{
    let mut out = no_actions();
    let mut i: usize = 0;
    while i < before.len()
        invariant
            i <= before@.len(),
            acts(out@) == stop_departed(server, dials(before@), dials(wanted@), i as int),
        decreases before.len() - i,
    {
        if !dials_fullname(wanted, &before[i].fullname) {
            act(
                &mut out,
                Action::StopDevice { server, fullname: before[i].fullname.clone() },
            );
        }
        i += 1;
    }
    out
}

fn keep_members(members: Vec<Member>, gone: &Vec<String>) -> (r: Vec<Member>)
    ensures
        dials(r@) == remaining(dials(members@), views(gone@)),
{
    let ghost all = dials(members@);
    let ghost keep = |m: Route| !views(gone@).contains(m.0);
    let mut out: Vec<Member> = Vec::new();
    let mut i: usize = 0;
    proof {
        reveal(Seq::filter);
        assert(dials(out@) =~= all.take(0).filter(keep));
    }
    while i < members.len()
        invariant
            i <= members@.len(),
            all == dials(members@),
            keep == (|m: Route| !views(gone@).contains(m.0)),
            dials(out@) == all.take(i as int).filter(keep),
        decreases members.len() - i,
    {
        let ghost before = dials(out@);
        proof {
            reveal(Seq::filter);
            assert(all.take(i + 1).drop_last() =~= all.take(i as int));
        }
        if !has_name(gone, &members[i].fullname) {
            out.push(members[i].copy());
            assert(dials(out@) =~= before.push(all[i as int]));
        }
        i += 1;
    }
    assert(all.take(i as int) =~= all);
    out
}

impl Pass {
    fn after_group(&self, i: usize) -> (r: Stage)
        ensures
            r == behind(self@, i),
    {
        if i < self.desired.len() {
            Stage::Anchor(i + 1)
        } else {
            Stage::Idle(0)
        }
    }

    fn do_anchor(&mut self, rec: &mut GroupReconciler, i: usize) -> (r: Vec<Action>)
        ensures
            (final(self)@, final(rec)@, acts(r@)) == anchor_step(old(self)@, old(rec)@, i),
    {
        let mut out = no_actions();
        if i >= self.desired.len() {
            self.stage = Stage::Idle(0);
            return out;
        }
        let key = self.desired.key_at(i).clone();
        if rec.running.contains_key(&key) {
            self.stage = Stage::Steer(i);
            return out;
        }
        act(&mut out, Action::CreateSink { node_name: anchor_name_for(&key) });
        self.stage = Stage::Anchored(i);
        assert(acts(out@) =~= seq![ActionView::CreateSink { node_name: anchor_name(key@) }]);
        out
    }

    fn do_anchored(&mut self, rec: &mut GroupReconciler, i: usize, e: Event) -> (r: Vec<Action>)
        requires
            e matches Event::Node(Some(_)) ==> has_free_port(old(rec)@),
        ensures
            (final(self)@, final(rec)@, acts(r@)) == anchored_step(old(self)@, old(rec)@, i, e),
    {
        let ghost before = rec@;
        let out = no_actions();
        if i >= self.desired.len() {
            self.stage = Stage::Idle(0);
            return out;
        }
        let key = self.desired.key_at(i).clone();
        match e {
            Event::Node(Some(id)) => {
                let port: u16 = match rec.alloc_port() {
                    Some(port) => port,
                    None => 0,
                };
                proof {
                    lemma_lowest_port(before, port);
                }
                let g = RunningGroup {
                    anchor_node_name: anchor_name_for(&key),
                    anchor_node_id: id,
                    port,
                    server: None,
                    server_devices: Vec::new(),
                    server_members: Vec::new(),
                    server_codec: "pcm",
                    server_send_ahead_us: 0,
                    force_device_reconnect: NameSet::new(),
                    ap2_sender: None,
                    ap2_members: Vec::new(),
                    ap2_rate: 48_000,
                    pwsink_server: None,
                    pwsink_members: Vec::new(),
                    pwsink_ports: Vec::new(),
                };
                assert(g@ =~= fresh_group(key@, id, port));
                rec.running.insert(key, g);
                assert(rec@.running =~= before.running.insert(key@, g@));
                self.stage = Stage::Steer(i);
            },
            Event::Unreachable => {
                self.stage = self.after_group(i);
            },
            _ => {
                rec.retry = true;
                self.stage = self.after_group(i);
            },
        }
        out
    }

    fn do_steer(&mut self, rec: &mut GroupReconciler, i: usize) -> (r: Vec<Action>)
        ensures
            (final(self)@, final(rec)@, acts(r@)) == steer_step(old(self)@, old(rec)@, i),
    {
        let ghost before = rec@;
        if i >= self.desired.len() {
            self.stage = self.after_group(i);
            return no_actions();
        }
        let key = self.desired.key_at(i).clone();
        let d = self.desired.value_at(i);
        let mut g = match rec.running.remove(&key) {
            Some(g) => g,
            None => {
                assert(rec@.running =~= before.running);
                self.stage = self.after_group(i);
                return no_actions();
            },
        };
        let ghost was = g@;
        assert(was == before.running[key@]);
        assert(d@ == self@.desired[key@]);
        let action = sendspin_server_action(
            SendspinServerState {
                routed: d.sendspin_node_names.len() > 0,
                have_server: g.server.is_some(),
                config_changed: sendspin_config_changed(
                    g.server_codec,
                    g.server_send_ahead_us,
                    d.sendspin_codec,
                    d.sendspin_send_ahead_us,
                ) || sendspin_lead_rearm(
                    self.rearm,
                    g.server_send_ahead_us,
                    d.sendspin_send_ahead_us,
                ),
            },
        );
        assert(action == group_action(self@, d@, was));
        let mut out = link_all(d, &g.anchor_node_name);
        let ghost links = acts(out@);
        assert(links == link_sources(d@, was));
        let next = match action {
            ServerAction::Start | ServerAction::Stop => {
                match g.server {
                    Some(server) => {
                        act(&mut out, Action::StopServer { server });
                    },
                    None => {},
                }
                assert(acts(out@) =~= links + stop_server(was));
                clear_part(Part::Sendspin, &mut g);
                match action {
                    ServerAction::Start => {
                        let ghost so_far = acts(out@);
                        act(
                            &mut out,
                            Action::StartServer {
                                sink_node_name: g.anchor_node_name.clone(),
                                display: group_display(d),
                                port: g.port,
                                node_id: g.anchor_node_id,
                                members: copy_members(&d.sendspin_members),
                                send_ahead_us: d.sendspin_send_ahead_us,
                                policy: StreamPolicy::Always,
                                codec: d.sendspin_codec,
                            },
                        );
                        assert(acts(out@) =~= so_far + seq![start_server(d@, was)]);
                        Stage::Serving(i)
                    },
                    _ => Stage::Members(i, false),
                }
            },
            _ => Stage::Members(i, false),
        };
        self.stage = next;
        rec.running.insert(key, g);
        proof {
            assert(rec@.running =~= before.running.insert(key@, g@));
            if g@ == was {
                assert(before.running.insert(key@, was) =~= before.running);
            }
        }
        out
    }

    fn do_serving(&mut self, rec: &mut GroupReconciler, i: usize, e: Event) -> (r: Vec<Action>)
        ensures
            (final(self)@, final(rec)@, acts(r@)) == serving_step(old(self)@, old(rec)@, i, e),
    {
        let ghost before = rec@;
        if i >= self.desired.len() {
            self.stage = self.after_group(i);
            return no_actions();
        }
        let key = self.desired.key_at(i).clone();
        let d = self.desired.value_at(i);
        if !rec.running.contains_key(&key) {
            self.stage = self.after_group(i);
            return no_actions();
        }
        match e {
            Event::Started(Some(h)) => match rec.running.remove(&key) {
                Some(mut g) => {
                    g.server = Some(h);
                    g.server_codec = d.sendspin_codec;
                    g.server_send_ahead_us = d.sendspin_send_ahead_us;
                    rec.running.insert(key, g);
                    assert(g@ =~= (RunningView {
                        server: Some(h),
                        server_codec: d@.sendspin_codec,
                        server_send_ahead_us: d@.sendspin_send_ahead_us,
                        ..before.running[key@]
                    }));
                    assert(rec@.running =~= before.running.insert(key@, g@));
                },
                None => {},
            },
            _ => {
                rec.retry = true;
            },
        }
        self.stage = Stage::Members(i, true);
        no_actions()
    }

    fn renewed_names(&self, d: &DesiredGroup, forced: &NameSet) -> (r: Vec<String>)
        ensures
            ({
                let names = in_order(forced@);
                views(r@) == renewed(
                    self@.fullnames,
                    d@.sendspin_members,
                    names,
                    names.len() as int,
                )
            }),
    {
        let n: usize = forced.len();
        let ghost names = forced.names();
        proof {
            lemma_in_order(names);
        }
        let mut out: Vec<String> = Vec::new();
        let mut i: usize = 0;
        assert(views(out@) =~= Seq::<Seq<char>>::empty());
        while i < n
            invariant
                i <= n,
                n == names.len(),
                names == forced.names(),
                views(out@) == renewed(self@.fullnames, d@.sendspin_members, names, i as int),
            decreases n - i,
        {
            let ghost before = views(out@);
            match self.fullnames.get(forced.at(i)) {
                Some(fullname) => {
                    if dials_fullname(&d.sendspin_members, fullname) {
                        out.push(fullname.clone());
                        assert(views(out@) =~= before.push(fullname@));
                    }
                },
                None => {},
            }
            i += 1;
        }
        out
    }

    fn do_members(&mut self, rec: &mut GroupReconciler, i: usize, restarted: bool) -> (r: Vec<Action>)
        ensures
            (final(self)@, final(rec)@, acts(r@)) == members_step(
                old(self)@,
                old(rec)@,
                i,
                restarted,
            ),
    {
        let ghost before = rec@;
        if i >= self.desired.len() {
            self.stage = self.after_group(i);
            return no_actions();
        }
        let key = self.desired.key_at(i).clone();
        let d = self.desired.value_at(i);
        let mut g = match rec.running.remove(&key) {
            Some(g) => g,
            None => {
                assert(rec@.running =~= before.running);
                self.stage = self.after_group(i);
                return no_actions();
            },
        };
        let ghost was = g@;
        assert(was == before.running[key@]);
        assert(d@ == self@.desired[key@]);
        let mut out = no_actions();
        let gone = self.renewed_names(d, &g.force_device_reconnect);
        match g.server {
            Some(server) => {
                if !restarted && !same_members(&g.server_members, &d.sendspin_members) {
                    let departed = stop_departed_members(
                        server,
                        &g.server_members,
                        &d.sendspin_members,
                    );
                    push_all(&mut out, departed);
                    act(
                        &mut out,
                        Action::Supervise { server, members: copy_members(&d.sendspin_members) },
                    );
                }
                assert(acts(out@) =~= member_changes(d@, was, restarted));
                g.server_devices = copy_names(&d.sendspin_node_names);
                g.server_members = copy_members(&d.sendspin_members);
                let ghost so_far = acts(out@);
                let ghost all = views(gone@);
                let mut k: usize = 0;
                assert(so_far + stop_each(was, all).take(0) =~= so_far);
                while k < gone.len()
                    invariant
                        k <= gone@.len(),
                        all == views(gone@),
                        was.server == Some(server),
                        acts(out@) == so_far + stop_each(was, all).take(k as int),
                    decreases gone.len() - k,
                {
                    let ghost mid = acts(out@);
                    act(&mut out, Action::StopDevice { server, fullname: gone[k].clone() });
                    proof {
                        let s = stop_each(was, all);
                        assert(s.take(k + 1) =~= s.take(k as int).push(s[k as int]));
                        assert(acts(out@) =~= so_far + s.take(k + 1));
                    }
                    k += 1;
                }
                assert(stop_each(was, all).take(k as int) =~= stop_each(was, all));
            },
            None => {
                assert(member_changes(d@, was, restarted) + stop_each(was, views(gone@))
                    =~= Seq::<ActionView>::empty());
            },
        }
        assert(g@ =~= noted(d@, was));
        let ghost next = g@;
        g.force_device_reconnect = NameSet::new();
        let mut members: Vec<Member> = Vec::new();
        std::mem::swap(&mut members, &mut g.server_members);
        g.server_members = keep_members(members, &gone);
        assert(g@ =~= (RunningView {
            force_device_reconnect: Set::empty(),
            server_members: remaining(next.server_members, views(gone@)),
            ..next
        }));
        if gone.len() > 0 {
            rec.retry = true;
        }
        self.stage = Stage::Ap2(i);
        rec.running.insert(key, g);
        assert(rec@.running =~= before.running.insert(key@, g@));
        out
    }

    fn do_ap2(&mut self, rec: &mut GroupReconciler, i: usize) -> (r: Vec<Action>)
        ensures
            (final(self)@, final(rec)@, acts(r@)) == ap2_step(old(self)@, old(rec)@, i),
    {
        let ghost before = rec@;
        let mut out = no_actions();
        if i >= self.desired.len() {
            self.stage = self.after_group(i);
            return out;
        }
        let key = self.desired.key_at(i).clone();
        let d = self.desired.value_at(i);
        let mut g = match rec.running.remove(&key) {
            Some(g) => g,
            None => {
                assert(rec@.running =~= before.running);
                self.stage = self.after_group(i);
                return out;
            },
        };
        let ghost was = g@;
        assert(was == before.running[key@]);
        assert(d@ == self@.desired[key@]);
        if same_names(&names_of(&d.ap2_members), &g.ap2_members) && d.ap2_rate == g.ap2_rate {
            self.stage = Stage::PwSink(i);
        } else {
            match g.ap2_sender {
                Some(sender) => {
                    act(&mut out, Action::DropAp2 { sender });
                    assert(acts(out@) =~= seq![ActionView::DropAp2 { sender }]);
                },
                None => {},
            }
            clear_part(Part::Ap2, &mut g);
            if d.ap2_members.len() == 0 {
                self.stage = Stage::PwSink(i);
            } else {
                act(
                    &mut out,
                    Action::StartAp2 {
                        members: copy_receivers(&d.ap2_members),
                        node_id: g.anchor_node_id,
                        rate: d.ap2_rate,
                    },
                );
                self.stage = Stage::Ap2Started(i);
            }
        }
        rec.running.insert(key, g);
        proof {
            assert(rec@.running =~= before.running.insert(key@, g@));
            if g@ == was {
                assert(before.running.insert(key@, was) =~= before.running);
            }
        }
        out
    }

    fn do_ap2_started(&mut self, rec: &mut GroupReconciler, i: usize, e: Event) -> (r: Vec<Action>)
        ensures
            (final(self)@, final(rec)@, acts(r@)) == ap2_started_step(old(self)@, old(rec)@, i, e),
    {
        let ghost before = rec@;
        if i >= self.desired.len() {
            self.stage = self.after_group(i);
            return no_actions();
        }
        let key = self.desired.key_at(i).clone();
        let d = self.desired.value_at(i);
        if !rec.running.contains_key(&key) {
            self.stage = self.after_group(i);
            return no_actions();
        }
        match e {
            Event::Started(Some(h)) => match rec.running.remove(&key) {
                Some(mut g) => {
                    g.ap2_sender = Some(h);
                    g.ap2_members = names_of(&d.ap2_members);
                    g.ap2_rate = d.ap2_rate;
                    rec.running.insert(key, g);
                    assert(g@ =~= (RunningView {
                        ap2_sender: Some(h),
                        ap2_members: receiver_names(d@.ap2_members),
                        ap2_rate: d@.ap2_rate,
                        ..before.running[key@]
                    }));
                    assert(rec@.running =~= before.running.insert(key@, g@));
                },
                None => {},
            },
            _ => {
                rec.retry = true;
            },
        }
        self.stage = Stage::PwSink(i);
        no_actions()
    }

    fn hosts_with_ports(&self, names: &Vec<String>, ports: &Vec<u16>) -> (r: Vec<PwSinkMember>)
        ensures
            pwsink_dials(r@) == hosts_on(self@, views(names@), ports@),
    {
        let mut out: Vec<PwSinkMember> = Vec::new();
        let mut k: usize = 0;
        while k < names.len() && k < ports.len()
            invariant
                k <= names@.len(),
                k <= ports@.len(),
                out@.len() == k,
                forall|j: int|
                    0 <= j < k ==> (#[trigger] out@[j])@ == (
                        names@[j]@,
                        ports@[j],
                        jitter_of(self@, names@[j]@),
                    ),
            decreases names.len() - k,
        {
            let playout_ms: u16 = match self.jitters.get(&names[k]) {
                Some(ms) => *ms,
                None => self.default_jitter_ms,
            };
            out.push(
                PwSinkMember { node_name: names[k].clone(), control_port: ports[k], playout_ms },
            );
            k += 1;
        }
        assert(pwsink_dials(out@) =~= hosts_on(self@, views(names@), ports@));
        out
    }

    fn do_pwsink(&mut self, rec: &mut GroupReconciler, i: usize) -> (r: Vec<Action>)
        ensures
            (final(self)@, final(rec)@, acts(r@)) == pwsink_step(old(self)@, old(rec)@, i),
    {
        let ghost before = rec@;
        let mut out = no_actions();
        let next = self.after_group(i);
        if i >= self.desired.len() {
            self.stage = next;
            return out;
        }
        let key = self.desired.key_at(i).clone();
        let d = self.desired.value_at(i);
        let mut g = match rec.running.remove(&key) {
            Some(g) => g,
            None => {
                assert(rec@.running =~= before.running);
                self.stage = next;
                return out;
            },
        };
        let ghost was = g@;
        assert(was == before.running[key@]);
        assert(d@ == self@.desired[key@]);
        if same_names(&d.pwsink_members, &g.pwsink_members) {
            self.stage = next;
            rec.running.insert(key, g);
            proof {
                assert(rec@.running =~= before.running.insert(key@, was));
                assert(before.running.insert(key@, was) =~= before.running);
            }
            return out;
        }
        match g.pwsink_server {
            Some(server) => {
                act(&mut out, Action::DropPwSink { server });
                assert(acts(out@) =~= seq![ActionView::DropPwSink { server }]);
            },
            None => {},
        }
        clear_part(Part::PwSink, &mut g);
        let node_id: u32 = g.anchor_node_id;
        rec.running.insert(key, g);
        assert(rec@.running =~= before.running.insert(key@, g@));
        if d.pwsink_members.len() == 0 {
            self.stage = next;
            return out;
        }
        let ports = rec.alloc_pwsink_ports(d.pwsink_members.len());
        let members = self.hosts_with_ports(&d.pwsink_members, &ports);
        act(&mut out, Action::StartPwSink { members, node_id });
        self.ports = ports;
        self.stage = Stage::PwSinkStarted(i);
        out
    }

    fn do_pwsink_started(&mut self, rec: &mut GroupReconciler, i: usize, e: Event) -> (r: Vec<
        Action,
    >)
        ensures
            (final(self)@, final(rec)@, acts(r@)) == pwsink_started_step(
                old(self)@,
                old(rec)@,
                i,
                e,
            ),
    {
        let ghost before = rec@;
        let next = self.after_group(i);
        if i >= self.desired.len() {
            self.stage = next;
            return no_actions();
        }
        let key = self.desired.key_at(i).clone();
        let d = self.desired.value_at(i);
        if !rec.running.contains_key(&key) {
            self.stage = next;
            return no_actions();
        }
        match e {
            Event::Started(Some(h)) => match rec.running.remove(&key) {
                Some(mut g) => {
                    g.pwsink_server = Some(h);
                    g.pwsink_members = copy_names(&d.pwsink_members);
                    let mut ports: Vec<u16> = Vec::new();
                    let mut k: usize = 0;
                    while k < self.ports.len()
                        invariant
                            k <= self.ports@.len(),
                            ports@ == self.ports@.take(k as int),
                        decreases self.ports.len() - k,
                    {
                        ports.push(self.ports[k]);
                        assert(ports@ =~= self.ports@.take(k + 1));
                        k += 1;
                    }
                    assert(ports@ =~= self.ports@);
                    g.pwsink_ports = ports;
                    rec.running.insert(key, g);
                    assert(g@ =~= (RunningView {
                        pwsink_server: Some(h),
                        pwsink_members: d@.pwsink_members,
                        pwsink_ports: self@.ports,
                        ..before.running[key@]
                    }));
                    assert(rec@.running =~= before.running.insert(key@, g@));
                },
                None => {},
            },
            _ => {
                rec.retry = true;
            },
        }
        self.stage = next;
        no_actions()
    }

    fn do_idle(&mut self, rec: &mut GroupReconciler, j: usize) -> (r: Vec<Action>)
        ensures
            (final(self)@, final(rec)@, acts(r@)) == idle_step(old(self)@, old(rec)@, j),
    {
        let mut out = no_actions();
        if j >= self.idle.len() {
            self.stage = Stage::Finished;
            return out;
        }
        let dev = self.idle.key_at(j).clone();
        if rec.idle_senders.contains_key(&dev) {
            self.stage = Stage::Idle(j + 1);
            return out;
        }
        act(&mut out, Action::CreateSink { node_name: idle_sink_for(&dev) });
        self.stage = Stage::IdleSink(j);
        assert(acts(out@) =~= seq![ActionView::CreateSink { node_name: idle_sink(dev@) }]);
        out
    }

    fn do_idle_sink(&mut self, rec: &mut GroupReconciler, j: usize, e: Event) -> (r: Vec<Action>)
        requires
            e matches Event::Node(Some(_)) ==> has_free_port(old(rec)@),
        ensures
            (final(self)@, final(rec)@, acts(r@)) == idle_sink_step(old(self)@, old(rec)@, j, e),
    {
        let mut out = no_actions();
        if j >= self.idle.len() {
            self.stage = Stage::Finished;
            return out;
        }
        let dev = self.idle.key_at(j).clone();
        let plan = self.idle.value_at(j);
        assert(plan@ == self@.idle[dev@]);
        match e {
            Event::Node(Some(id)) => match &plan.url {
                Some(url) => {
                    let port: u16 = match rec.alloc_port() {
                        Some(port) => port,
                        None => 0,
                    };
                    proof {
                        lemma_lowest_port(rec@, port);
                    }
                    let mut members: Vec<Member> = Vec::new();
                    members.push(Member { fullname: plan.fullname.clone(), url: url.clone() });
                    assert(dials(members@) =~= seq![(plan.fullname@, url@)]);
                    act(
                        &mut out,
                        Action::StartServer {
                            sink_node_name: idle_sink_for(&dev),
                            display: joined2("idle: ", &output_display_name(&dev)),
                            port,
                            node_id: id,
                            members,
                            send_ahead_us: plan.send_ahead_us,
                            policy: StreamPolicy::WhenAnnounced,
                            codec: plan.codec,
                        },
                    );
                    assert(acts(out@).len() == 1);
                    self.stage = Stage::IdleStarted(j, id, port);
                },
                None => {
                    rec.retry = true;
                    self.stage = Stage::Idle(j + 1);
                },
            },
            Event::Unreachable => {
                self.stage = Stage::Idle(j + 1);
            },
            _ => {
                rec.retry = true;
                self.stage = Stage::Idle(j + 1);
            },
        }
        proof {
            let want = idle_sink_step(old(self)@, old(rec)@, j, e).2;
            assert(acts(out@) =~= want);
        }
        out
    }

    fn do_idle_started(
        &mut self,
        rec: &mut GroupReconciler,
        j: usize,
        id: u32,
        port: u16,
        e: Event,
    ) -> (r: Vec<Action>)
        ensures
            (final(self)@, final(rec)@, acts(r@)) == idle_started_step(
                old(self)@,
                old(rec)@,
                j,
                id,
                port,
                e,
            ),
    {
        let ghost before = rec@;
        let mut out = no_actions();
        if j >= self.idle.len() {
            self.stage = Stage::Finished;
            return out;
        }
        let dev = self.idle.key_at(j).clone();
        match e {
            Event::Started(Some(h)) => {
                let s = IdleSender {
                    sink_node_name: idle_sink_for(&dev),
                    sink_node_id: id,
                    port,
                    server: h,
                };
                rec.idle_senders.insert(dev, s);
                assert(rec@.idle =~= before.idle.insert(dev@, s@));
            },
            _ => {
                rec.retry = true;
                act(&mut out, Action::DestroySink { node_id: id });
                assert(acts(out@) =~= seq![ActionView::DestroySink { node_id: id }]);
            },
        }
        self.stage = Stage::Idle(j + 1);
        out
    }

    /// One step of the pass, from what the last action came to. The actions are to be
    /// carried out in order; what the last one comes to is the next event. A new
    /// server takes the lowest free port, so one has to be free when a sink appears.
    pub fn next(&mut self, rec: &mut GroupReconciler, event: Event) -> (r: Vec<Action>)
        requires
            event matches Event::Node(Some(_)) ==> has_free_port(old(rec)@),
        ensures
            (final(self)@, final(rec)@, acts(r@)) == step(old(self)@, old(rec)@, event),
    {
        match self.stage {
            Stage::Anchor(i) => self.do_anchor(rec, i),
            Stage::Anchored(i) => self.do_anchored(rec, i, event),
            Stage::Steer(i) => self.do_steer(rec, i),
            Stage::Serving(i) => self.do_serving(rec, i, event),
            Stage::Members(i, restarted) => self.do_members(rec, i, restarted),
            Stage::Ap2(i) => self.do_ap2(rec, i),
            Stage::Ap2Started(i) => self.do_ap2_started(rec, i, event),
            Stage::PwSink(i) => self.do_pwsink(rec, i),
            Stage::PwSinkStarted(i) => self.do_pwsink_started(rec, i, event),
            Stage::Idle(j) => self.do_idle(rec, j),
            Stage::IdleSink(j) => self.do_idle_sink(rec, j, event),
            Stage::IdleStarted(j, id, port) => self.do_idle_started(rec, j, id, port, event),
            Stage::Finished => no_actions(),
        }
    }

    /// Whether the pass is over.
    pub fn finished(&self) -> (r: bool)
        ensures
            r == (self@.stage == Stage::Finished),
    {
        match self.stage {
            Stage::Finished => true,
            _ => false,
        }
    }
}

// ---- the beginning of a pass ----------------------------------------------------------------

/// What is there to play to, as a pass reads it.
pub struct Scene {
    /// The stored routes.
    pub intent: Vec<RoutingLink>,
    /// The outputs that were added.
    pub adopted: NameSet,
    pub devices: NameMap<SendspinDevice>,
    pub ap2_devices: NameMap<Ap2Device>,
    /// Connected remote hosts and their labels.
    pub pwsink_hosts: NameMap<String>,
    pub settings: SyncSettings,
}

/// The routes as a pass sees them: those to adopted outputs, with an alignment's
/// hold applied.
pub open spec fn seen_intent(c: Scene, hold: Option<(u64, Set<Seq<char>>)>) -> Seq<Route> {
    effective(hold, routes_to(routes(c.intent@), c.adopted@))
}

/// The groups are those the routes call for, each settled.
pub open spec fn planned(d: Map<Seq<char>, DesiredView>, intent: Seq<Route>, c: Scene) -> bool {
    forall|k: Seq<char>|
        ({
            let x = c.devices.names().filter(fed_by(intent, k));
            let y = c.ap2_devices.names().filter(reached(intent, k, c.ap2_devices@));
            let z = c.pwsink_hosts.names().filter(fed_by(intent, k));
            &&& #[trigger] d.contains_key(k) <==> x.len() + y.len() + z.len() > 0
            &&& d.contains_key(k) ==> exists|g: DesiredView|
                group_of(
                    g,
                    intent,
                    x,
                    y,
                    z,
                    c.devices@,
                    c.ap2_devices@,
                    c.settings.ap2_latencies@,
                ) && d[k] == #[trigger] settled(g, c.devices@, c.settings)
        })
}

/// The sendspin devices that are in some group.
pub open spec fn grouped_devices(d: Map<Seq<char>, DesiredView>) -> Set<Seq<char>> {
    Set::new(
        |n: Seq<char>|
            exists|k: Seq<char>| #[trigger]
                d.contains_key(k) && d[k].sendspin_node_names.contains(n),
    )
}

/// The receivers and hosts that are in some group.
pub open spec fn grouped_dialed(d: Map<Seq<char>, DesiredView>) -> Set<Seq<char>> {
    Set::new(
        |n: Seq<char>|
            exists|k: Seq<char>| #[trigger]
                d.contains_key(k) && (receiver_names(d[k].ap2_members).contains(n)
                    || d[k].pwsink_members.contains(n)),
    )
}

/// What the idle sender of a device is started with.
pub open spec fn idle_plan(c: Scene, dev: Seq<char>) -> IdlePlanView {
    IdlePlanView {
        fullname: c.devices@[dev].fullname@,
        url: crate::text::opt_view(c.devices@[dev].url),
        codec: codec_for(seq![dev], c.devices@, c.settings),
        send_ahead_us: lead_for(seq![dev], c.devices@, c.settings) as i64,
    }
}

/// The devices that keep an idle sender: those that were adopted and are in no
/// group.
pub open spec fn idle_plans(c: Scene, grouped: Set<Seq<char>>) -> Map<Seq<char>, IdlePlanView> {
    Map::new(
        |n: Seq<char>|
            c.devices@.contains_key(n) && c.adopted@.contains(n) && !grouped.contains(n),
        |n: Seq<char>| idle_plan(c, n),
    )
}

/// What ending a group takes: its server first, its anchor last.
pub open spec fn end_group(g: RunningView) -> Seq<ActionView> {
    stop_server(g) + match g.ap2_sender {
        Some(sender) => seq![ActionView::DropAp2 { sender }],
        None => Seq::empty(),
    } + match g.pwsink_server {
        Some(server) => seq![ActionView::DropPwSink { server }],
        None => Seq::empty(),
    } + seq![ActionView::DestroySink { node_id: g.anchor_node_id }]
}

/// What ending the groups that are not kept takes, in the order of `keys`.
pub open spec fn end_groups(
    keys: Seq<Seq<char>>,
    running: Map<Seq<char>, RunningView>,
    kept: Set<Seq<char>>,
) -> Seq<ActionView>
    decreases keys.len(),
{
    if keys.len() == 0 {
        Seq::empty()
    } else {
        let before = end_groups(keys.drop_last(), running, kept);
        if kept.contains(keys.last()) {
            before
        } else {
            before + end_group(running[keys.last()])
        }
    }
}

/// What ending the idle senders that are not kept takes, in the order of `keys`.
pub open spec fn end_idle(
    keys: Seq<Seq<char>>,
    idle: Map<Seq<char>, IdleView>,
    kept: Set<Seq<char>>,
) -> Seq<ActionView>
    decreases keys.len(),
{
    if keys.len() == 0 {
        Seq::empty()
    } else {
        let before = end_idle(keys.drop_last(), idle, kept);
        let s = idle[keys.last()];
        if kept.contains(keys.last()) {
            before
        } else {
            before + seq![
                ActionView::StopServer { server: s.server },
                ActionView::DestroySink { node_id: s.sink_node_id },
            ]
        }
    }
}

/// Whether a session ends: its output is in a group now, or it is gone.
pub open spec fn session_ends(
    d: Map<Seq<char>, DesiredView>,
    ap2: Map<Seq<char>, Ap2Device>,
    hosts: Set<Seq<char>>,
) -> spec_fn(Seq<char>) -> bool {
    |o: Seq<char>|
        grouped_dialed(d).contains(o) || !(if AP2_DEV_PREFIX@.is_prefix_of(o) {
            ap2.contains_key(o) && ap2[o].present && ap2[o].addr is Some
        } else {
            hosts.contains(o)
        })
}

/// What is left once everything that is not wanted has ended, and what that takes.
pub open spec fn tear_down(
    r: RecView,
    d: Map<Seq<char>, DesiredView>,
    idle: Set<Seq<char>>,
    ap2: Map<Seq<char>, Ap2Device>,
    hosts: Set<Seq<char>>,
) -> (RecView, Seq<ActionView>) {
    let ends = session_ends(d, ap2, hosts);
    (
        RecView {
            running: r.running.restrict(d.dom()),
            idle: r.idle.restrict(idle),
            sessions: r.sessions.restrict(Set::new(|o: Seq<char>| !ends(o))),
            ..r
        },
        end_groups(in_order(r.running.dom()), r.running, d.dom()) + end_idle(
            in_order(r.idle.dom()),
            r.idle,
            idle,
        ) + end_sessions(in_order(r.sessions.dom()), r.sessions, ends),
    )
}

fn add_names(set: &mut NameSet, names: &Vec<String>)
    ensures
        forall|n: Seq<char>| #[trigger]
            final(set)@.contains(n) <==> old(set)@.contains(n) || views(names@).contains(n),
{
    let ghost before = set@;
    let ghost all = views(names@);
    let mut i: usize = 0;
    while i < names.len()
        invariant
            i <= names@.len(),
            all == views(names@),
            forall|n: Seq<char>| #[trigger]
                set@.contains(n) <==> before.contains(n) || all.take(i as int).contains(n),
        decreases names.len() - i,
    {
        proof {
            lemma_take_next(all, i as int);
        }
        set.insert(names[i].clone());
        i += 1;
    }
    assert(all.take(i as int) =~= all);
}

fn grouped_device_names(desired: &NameMap<DesiredGroup>) -> (r: NameSet)
    ensures
        r@ == grouped_devices(desired_views(desired@)),
{
    let mut out = NameSet::new();
    let n: usize = desired.len();
    let ghost keys = desired.names();
    let ghost d = desired_views(desired@);
    let mut i: usize = 0;
    while i < n
        invariant
            i <= n,
            n == keys.len(),
            keys == desired.names(),
            d == desired_views(desired@),
            forall|m: Seq<char>| #[trigger]
                out@.contains(m) <==> exists|j: int|
                    0 <= j < i && d[#[trigger] keys[j]].sendspin_node_names.contains(m),
        decreases n - i,
    {
        let key = desired.key_at(i);
        let ghost before = out@;
        add_names(&mut out, &desired.value_at(i).sendspin_node_names);
        proof {
            assert(d[keys[i as int]] == desired@[keys[i as int]]@);
            assert forall|m: Seq<char>| #[trigger] out@.contains(m) <==> exists|j: int|
                0 <= j < i + 1 && d[#[trigger] keys[j]].sendspin_node_names.contains(m) by {
                if before.contains(m) {
                    let j = choose|j: int|
                        0 <= j < i && d[#[trigger] keys[j]].sendspin_node_names.contains(m);
                    assert(0 <= j < i + 1);
                }
            }
        }
        i += 1;
    }
    proof {
        assert forall|m: Seq<char>| #[trigger] out@.contains(m) <==> grouped_devices(d).contains(
            m,
        ) by {
            if out@.contains(m) {
                let j = choose|j: int|
                    0 <= j < n && d[#[trigger] keys[j]].sendspin_node_names.contains(m);
                assert(keys.contains(keys[j]));
                assert(d.contains_key(keys[j]));
            }
            if grouped_devices(d).contains(m) {
                let k = choose|k: Seq<char>| #[trigger]
                    d.contains_key(k) && d[k].sendspin_node_names.contains(m);
                assert(keys.contains(k));
                let j = choose|j: int| 0 <= j < keys.len() && keys[j] == k;
                assert(d[keys[j]].sendspin_node_names.contains(m));
            }
        }
        assert(out@ =~= grouped_devices(d));
    }
    out
}

fn grouped_dialed_names(desired: &NameMap<DesiredGroup>) -> (r: NameSet)
    ensures
        r@ == grouped_dialed(desired_views(desired@)),
{
    let mut out = NameSet::new();
    let n: usize = desired.len();
    let ghost keys = desired.names();
    let ghost d = desired_views(desired@);
    let mut i: usize = 0;
    while i < n
        invariant
            i <= n,
            n == keys.len(),
            keys == desired.names(),
            d == desired_views(desired@),
            forall|m: Seq<char>| #[trigger]
                out@.contains(m) <==> exists|j: int|
                    0 <= j < i && (receiver_names(d[#[trigger] keys[j]].ap2_members).contains(m)
                        || d[keys[j]].pwsink_members.contains(m)),
        decreases n - i,
    {
        let key = desired.key_at(i);
        let ghost before = out@;
        let g = desired.value_at(i);
        add_names(&mut out, &names_of(&g.ap2_members));
        add_names(&mut out, &g.pwsink_members);
        proof {
            assert(d[keys[i as int]] == desired@[keys[i as int]]@);
            assert forall|m: Seq<char>| #[trigger] out@.contains(m) <==> exists|j: int|
                0 <= j < i + 1 && (receiver_names(d[#[trigger] keys[j]].ap2_members).contains(m)
                    || d[keys[j]].pwsink_members.contains(m)) by {
                if before.contains(m) {
                    let j = choose|j: int|
                        0 <= j < i && (receiver_names(d[#[trigger] keys[j]].ap2_members).contains(m)
                            || d[keys[j]].pwsink_members.contains(m));
                    assert(0 <= j < i + 1);
                }
            }
        }
        i += 1;
    }
    proof {
        assert forall|m: Seq<char>| #[trigger] out@.contains(m) <==> grouped_dialed(d).contains(
            m,
        ) by {
            if out@.contains(m) {
                let j = choose|j: int|
                    0 <= j < n && (receiver_names(d[#[trigger] keys[j]].ap2_members).contains(m)
                        || d[keys[j]].pwsink_members.contains(m));
                assert(keys.contains(keys[j]));
                assert(d.contains_key(keys[j]));
            }
            if grouped_dialed(d).contains(m) {
                let k = choose|k: Seq<char>| #[trigger]
                    d.contains_key(k) && (receiver_names(d[k].ap2_members).contains(m)
                        || d[k].pwsink_members.contains(m));
                assert(keys.contains(k));
                let j = choose|j: int| 0 <= j < keys.len() && keys[j] == k;
                assert(d[keys[j]] == d[k]);
            }
        }
        assert(out@ =~= grouped_dialed(d));
    }
    out
}

fn settle_all(desired: &mut NameMap<DesiredGroup>, c: &Scene)
    ensures
        desired_views(final(desired)@) == desired_views(old(desired)@).map_values(
            |g: DesiredView| settled(g, c.devices@, c.settings),
        ),
{
    let ghost before = desired_views(desired@);
    let ghost f = |g: DesiredView| settled(g, c.devices@, c.settings);
    let keys = desired.keys();
    let ghost names = views(keys@);
    let ghost dom = desired@.dom();
    proof {
        assert(names.to_set() =~= dom);
    }
    let mut i: usize = 0;
    while i < keys.len()
        invariant
            i <= keys@.len(),
            names == views(keys@),
            names.to_set() == dom,
            before.dom() == dom,
            sorted_names(names),
            f == (|g: DesiredView| settled(g, c.devices@, c.settings)),
            desired_views(desired@).dom() == dom,
            forall|k: Seq<char>| #[trigger]
                desired_views(desired@).contains_key(k) ==> desired_views(desired@)[k]
                    == if names.take(i as int).contains(k) {
                    f(before[k])
                } else {
                    before[k]
                },
        decreases keys.len() - i,
    {
        proof {
            lemma_take_next(names, i as int);
            assert(names.to_set().contains(names[i as int]));
            if names.take(i as int).contains(names[i as int]) {
                let j = choose|j: int| 0 <= j < i && names.take(i as int)[j] == names[i as int];
                crate::maps::lemma_sorted_unique(names, j, i as int);
            }
        }
        let ghost k = names[i as int];
        let ghost mid = desired_views(desired@);
        assert(mid.contains_key(k));
        assert(mid[k] == before[k]);
        match desired.remove(&keys[i]) {
            Some(mut g) => {
                settle(&mut g, &c.devices, &c.settings);
                desired.insert(keys[i].clone(), g);
                assert(g@ == f(before[k]));
                assert(desired_views(desired@) =~= mid.insert(k, g@));
            },
            None => {},
        }
        i += 1;
    }
    proof {
        assert(names.take(i as int) =~= names);
        assert forall|k: Seq<char>| names.contains(k) <==> before.contains_key(k) by {
            assert(names.to_set().contains(k) <==> dom.contains(k));
        }
        assert(desired_views(desired@) =~= before.map_values(f));
    }
}

fn plan_idle(c: &Scene, grouped: &NameSet) -> (r: NameMap<IdlePlan>)
    ensures
        plan_views(r@) == idle_plans(*c, grouped@),
{
    let mut out: NameMap<IdlePlan> = NameMap::new();
    let n: usize = c.devices.len();
    let ghost names = c.devices.names();
    let ghost want = idle_plans(*c, grouped@);
    let mut i: usize = 0;
    while i < n
        invariant
            i <= n,
            n == names.len(),
            names == c.devices.names(),
            want == idle_plans(*c, grouped@),
            forall|m: Seq<char>| #[trigger]
                plan_views(out@).contains_key(m) <==> want.contains_key(m) && names.take(
                    i as int,
                ).contains(m),
            forall|m: Seq<char>| #[trigger]
                plan_views(out@).contains_key(m) ==> plan_views(out@)[m] == want[m],
        decreases n - i,
    {
        proof {
            lemma_take_next(names, i as int);
        }
        let name = c.devices.key_at(i);
        let dev = c.devices.value_at(i);
        let ghost mid = plan_views(out@);
        if c.adopted.contains(name) && !grouped.contains(name) {
            let mut one: Vec<String> = Vec::new();
            one.push(name.clone());
            assert(views(one@) =~= seq![name@]);
            let (codec, lead) = stream_for(&one, &c.devices, &c.settings);
            let url = match &dev.url {
                Some(u) => Some(u.clone()),
                None => None,
            };
            let plan = IdlePlan {
                fullname: dev.fullname.clone(),
                url,
                codec,
                send_ahead_us: lead,
            };
            out.insert(name.clone(), plan);
            proof {
                assert(plan@ == want[name@]);
                assert(plan_views(out@) =~= mid.insert(name@, plan@));
            }
        }
        i += 1;
    }
    proof {
        assert(names.take(i as int) =~= names);
        assert(plan_views(out@) =~= want);
    }
    out
}

fn fullnames_of(devices: &NameMap<SendspinDevice>) -> (r: NameMap<String>)
    ensures
        text_views(r@) == devices@.map_values(|d: SendspinDevice| d.fullname@),
{
    let mut out: NameMap<String> = NameMap::new();
    let n: usize = devices.len();
    let ghost names = devices.names();
    let ghost want = devices@.map_values(|d: SendspinDevice| d.fullname@);
    let mut i: usize = 0;
    while i < n
        invariant
            i <= n,
            n == names.len(),
            names == devices.names(),
            want == devices@.map_values(|d: SendspinDevice| d.fullname@),
            forall|m: Seq<char>| #[trigger]
                text_views(out@).contains_key(m) <==> names.take(i as int).contains(m),
            forall|m: Seq<char>| #[trigger]
                text_views(out@).contains_key(m) ==> text_views(out@)[m] == want[m],
        decreases n - i,
    {
        proof {
            lemma_take_next(names, i as int);
        }
        let name = devices.key_at(i);
        let ghost mid = text_views(out@);
        let fullname = devices.value_at(i).fullname.clone();
        out.insert(name.clone(), fullname);
        assert(text_views(out@) =~= mid.insert(name@, fullname@));
        i += 1;
    }
    proof {
        assert(names.take(i as int) =~= names);
        assert(text_views(out@) =~= want);
    }
    out
}

fn copy_jitters(m: &NameMap<u16>) -> (r: NameMap<u16>)
    ensures
        r@ == m@,
{
    let mut out: NameMap<u16> = NameMap::new();
    let n: usize = m.len();
    let ghost names = m.names();
    let mut i: usize = 0;
    while i < n
        invariant
            i <= n,
            n == names.len(),
            names == m.names(),
            forall|k: Seq<char>| #[trigger]
                out@.contains_key(k) <==> names.take(i as int).contains(k),
            forall|k: Seq<char>| #[trigger] out@.contains_key(k) ==> out@[k] == m@[k],
        decreases n - i,
    {
        proof {
            lemma_take_next(names, i as int);
        }
        out.insert(m.key_at(i).clone(), *m.value_at(i));
        i += 1;
    }
    proof {
        assert(names.take(i as int) =~= names);
        assert(out@ =~= m@);
    }
    out
}

impl GroupReconciler {
    fn end_stale_groups(&mut self, desired: &NameMap<DesiredGroup>) -> (r: Vec<Action>)
        ensures
            final(self)@ == (RecView {
                running: old(self)@.running.restrict(desired_views(desired@).dom()),
                ..old(self)@
            }),
            acts(r@) == end_groups(
                in_order(old(self)@.running.dom()),
                old(self)@.running,
                desired_views(desired@).dom(),
            ),
    {
        let ghost before = self@;
        let ghost kept = desired_views(desired@).dom();
        let keys = self.running.keys();
        let ghost names = views(keys@);
        proof {
            lemma_in_order(names);
            assert(names.to_set() =~= before.running.dom());
        }
        let mut out = no_actions();
        let mut i: usize = 0;
        while i < keys.len()
            invariant
                i <= keys@.len(),
                names == views(keys@),
                names.to_set() == before.running.dom(),
                sorted_names(names),
                kept == desired_views(desired@).dom(),
                self@ == (RecView { running: self@.running, ..before }),
                forall|k: Seq<char>| #[trigger]
                    self@.running.contains_key(k) <==> before.running.contains_key(k) && (
                    kept.contains(k) || !names.take(i as int).contains(k)),
                forall|k: Seq<char>| #[trigger]
                    self@.running.contains_key(k) ==> self@.running[k] == before.running[k],
                acts(out@) == end_groups(names.take(i as int), before.running, kept),
            decreases keys.len() - i,
        {
            proof {
                lemma_take_next(names, i as int);
                assert(names.take(i + 1).drop_last() =~= names.take(i as int));
                assert(names.to_set().contains(names[i as int]));
                if names.take(i as int).contains(names[i as int]) {
                    let j = choose|j: int| 0 <= j < i && names.take(i as int)[j] == names[i as int];
                    crate::maps::lemma_sorted_unique(names, j, i as int);
                }
            }
            let ghost k = names[i as int];
            let ghost mid = self@.running;
            assert(before.running.dom().contains(k));
            assert(mid.contains_key(k));
            if !desired.contains_key(&keys[i]) {
                match self.running.remove(&keys[i]) {
                    Some(g) => {
                        assert(g@ == before.running[k]);
                        let ghost so_far = acts(out@);
                        match g.server {
                            Some(server) => {
                                act(&mut out, Action::StopServer { server });
                            },
                            None => {},
                        }
                        match g.ap2_sender {
                            Some(sender) => {
                                act(&mut out, Action::DropAp2 { sender });
                            },
                            None => {},
                        }
                        match g.pwsink_server {
                            Some(server) => {
                                act(&mut out, Action::DropPwSink { server });
                            },
                            None => {},
                        }
                        act(&mut out, Action::DestroySink { node_id: g.anchor_node_id });
                        proof {
                            assert(acts(out@) =~= so_far + end_group(g@));
                            assert(self@.running =~= mid.remove(k));
                        }
                    },
                    None => {},
                }
            }
            i += 1;
        }
        proof {
            assert(names.take(i as int) =~= names);
            assert forall|k: Seq<char>| names.contains(k) <==> before.running.contains_key(k) by {
                assert(names.to_set().contains(k) <==> before.running.dom().contains(k));
            }
            assert(self@.running =~= before.running.restrict(kept));
        }
        out
    }

    fn end_unwanted_idle(&mut self, wanted: &NameMap<IdlePlan>) -> (r: Vec<Action>)
        ensures
            final(self)@ == (RecView {
                idle: old(self)@.idle.restrict(plan_views(wanted@).dom()),
                ..old(self)@
            }),
            acts(r@) == end_idle(
                in_order(old(self)@.idle.dom()),
                old(self)@.idle,
                plan_views(wanted@).dom(),
            ),
    {
        let ghost before = self@;
        let ghost kept = plan_views(wanted@).dom();
        let keys = self.idle_senders.keys();
        let ghost names = views(keys@);
        proof {
            lemma_in_order(names);
            assert(names.to_set() =~= before.idle.dom());
        }
        let mut out = no_actions();
        let mut i: usize = 0;
        while i < keys.len()
            invariant
                i <= keys@.len(),
                names == views(keys@),
                names.to_set() == before.idle.dom(),
                sorted_names(names),
                kept == plan_views(wanted@).dom(),
                self@ == (RecView { idle: self@.idle, ..before }),
                forall|k: Seq<char>| #[trigger]
                    self@.idle.contains_key(k) <==> before.idle.contains_key(k) && (kept.contains(k)
                        || !names.take(i as int).contains(k)),
                forall|k: Seq<char>| #[trigger]
                    self@.idle.contains_key(k) ==> self@.idle[k] == before.idle[k],
                acts(out@) == end_idle(names.take(i as int), before.idle, kept),
            decreases keys.len() - i,
        {
            proof {
                lemma_take_next(names, i as int);
                assert(names.take(i + 1).drop_last() =~= names.take(i as int));
                assert(names.to_set().contains(names[i as int]));
                if names.take(i as int).contains(names[i as int]) {
                    let j = choose|j: int| 0 <= j < i && names.take(i as int)[j] == names[i as int];
                    crate::maps::lemma_sorted_unique(names, j, i as int);
                }
            }
            let ghost k = names[i as int];
            let ghost mid = self@.idle;
            assert(before.idle.dom().contains(k));
            assert(mid.contains_key(k));
            if !wanted.contains_key(&keys[i]) {
                match self.idle_senders.remove(&keys[i]) {
                    Some(s) => {
                        assert(s@ == before.idle[k]);
                        let ghost so_far = acts(out@);
                        act(&mut out, Action::StopServer { server: s.server });
                        act(&mut out, Action::DestroySink { node_id: s.sink_node_id });
                        proof {
                            assert(acts(out@) =~= so_far + seq![
                                ActionView::StopServer { server: s.server },
                                ActionView::DestroySink { node_id: s.sink_node_id },
                            ]);
                            assert(self@.idle =~= mid.remove(k));
                        }
                    },
                    None => {},
                }
            }
            i += 1;
        }
        proof {
            assert(names.take(i as int) =~= names);
            assert forall|k: Seq<char>| names.contains(k) <==> before.idle.contains_key(k) by {
                assert(names.to_set().contains(k) <==> before.idle.dom().contains(k));
            }
            assert(self@.idle =~= before.idle.restrict(kept));
        }
        out
    }

    fn end_lost_sessions(&mut self, desired: &NameMap<DesiredGroup>, c: &Scene) -> (r: Vec<Action>)
        ensures
            ({
                let ends = session_ends(
                    desired_views(desired@),
                    c.ap2_devices@,
                    c.pwsink_hosts@.dom(),
                );
                &&& final(self)@ == (RecView {
                    sessions: old(self)@.sessions.restrict(Set::new(|o: Seq<char>| !ends(o))),
                    ..old(self)@
                })
                &&& acts(r@) == end_sessions(
                    in_order(old(self)@.sessions.dom()),
                    old(self)@.sessions,
                    ends,
                )
            }),
    {
        let ghost before = self@;
        let ghost ends = session_ends(desired_views(desired@), c.ap2_devices@, c.pwsink_hosts@.dom());
        let grouped = grouped_dialed_names(desired);
        let keys = self.announce_sessions.keys();
        let ghost names = views(keys@);
        proof {
            lemma_in_order(names);
            assert(names.to_set() =~= before.sessions.dom());
        }
        let mut out = no_actions();
        let mut i: usize = 0;
        while i < keys.len()
            invariant
                i <= keys@.len(),
                names == views(keys@),
                names.to_set() == before.sessions.dom(),
                sorted_names(names),
                grouped@ == grouped_dialed(desired_views(desired@)),
                ends == session_ends(
                    desired_views(desired@),
                    c.ap2_devices@,
                    c.pwsink_hosts@.dom(),
                ),
                self@ == (RecView { sessions: self@.sessions, ..before }),
                forall|k: Seq<char>| #[trigger]
                    self@.sessions.contains_key(k) <==> before.sessions.contains_key(k) && (!ends(k)
                        || !names.take(i as int).contains(k)),
                forall|k: Seq<char>| #[trigger]
                    self@.sessions.contains_key(k) ==> self@.sessions[k] == before.sessions[k],
                acts(out@) == end_sessions(names.take(i as int), before.sessions, ends),
            decreases keys.len() - i,
        {
            proof {
                lemma_take_next(names, i as int);
                assert(names.take(i + 1).drop_last() =~= names.take(i as int));
                assert(names.to_set().contains(names[i as int]));
                if names.take(i as int).contains(names[i as int]) {
                    let j = choose|j: int| 0 <= j < i && names.take(i as int)[j] == names[i as int];
                    crate::maps::lemma_sorted_unique(names, j, i as int);
                }
            }
            let ghost k = names[i as int];
            let ghost mid = self@.sessions;
            assert(before.sessions.dom().contains(k));
            assert(mid.contains_key(k));
            let there = if starts_with(&keys[i], AP2_DEV_PREFIX) {
                match c.ap2_devices.get(&keys[i]) {
                    Some(d) => d.present && d.addr.is_some(),
                    None => false,
                }
            } else {
                c.pwsink_hosts.contains_key(&keys[i])
            };
            if grouped.contains(&keys[i]) || !there {
                assert(ends(k));
                let ended = self.drop_announce_session(&keys[i]);
                push_all(&mut out, ended);
            } else {
                assert(!ends(k));
            }
            i += 1;
        }
        proof {
            assert(names.take(i as int) =~= names);
            assert forall|k: Seq<char>| names.contains(k) <==> before.sessions.contains_key(k) by {
                assert(names.to_set().contains(k) <==> before.sessions.dom().contains(k));
            }
            assert(self@.sessions =~= before.sessions.restrict(Set::new(|o: Seq<char>| !ends(o))));
        }
        out
    }

    /// Begins a pass: what is called for is worked out from the routes to adopted
    /// outputs, and everything that is not wanted any more is ended, before anything
    /// is dialed.
    pub fn begin_pass(&mut self, c: Scene) -> (r: (Pass, Vec<Action>))
        ensures
            ({
                let (pass, actions) = r;
                let before = old(self)@;
                let p = pass@;
                let ready = RecView { rearm: false, retry: false, ..before };
                &&& planned(p.desired, seen_intent(c, before.hold), c)
                &&& p.keys == in_order(p.desired.dom())
                &&& p.idle == idle_plans(c, grouped_devices(p.desired))
                &&& p.idle_keys == in_order(p.idle.dom())
                &&& p.fullnames == c.devices@.map_values(|d: SendspinDevice| d.fullname@)
                &&& p.jitters == c.settings.pwsink_jitters@
                &&& p.default_jitter_ms == c.settings.pwsink_default_jitter_ms
                &&& p.rearm == before.rearm
                &&& p.stage == Stage::Anchor(0)
                &&& (final(self)@, acts(actions@)) == tear_down(
                    ready,
                    p.desired,
                    p.idle.dom(),
                    c.ap2_devices@,
                    c.pwsink_hosts@.dom(),
                )
            }),
    {
        let ghost before = self@;
        let rearm = self.rearm;
        self.rearm = false;
        self.retry = false;
        let kept = links_to(&c.intent, &c.adopted);
        let intent = self.effective_intent(kept);
        let mut desired = compute_desired(
            &intent,
            &c.devices,
            &c.ap2_devices,
            &c.settings.ap2_latencies,
            &c.pwsink_hosts,
        );
        let ghost called = desired@;
        settle_all(&mut desired, &c);
        let grouped = grouped_device_names(&desired);
        let idle = plan_idle(&c, &grouped);
        let mut out = self.end_stale_groups(&desired);
        let more = self.end_unwanted_idle(&idle);
        push_all(&mut out, more);
        let more = self.end_lost_sessions(&desired, &c);
        push_all(&mut out, more);
        let n: usize = desired.len();
        let m: usize = idle.len();
        let pass = Pass {
            desired,
            idle,
            fullnames: fullnames_of(&c.devices),
            jitters: copy_jitters(&c.settings.pwsink_jitters),
            default_jitter_ms: c.settings.pwsink_default_jitter_ms,
            rearm,
            stage: Stage::Anchor(0),
            ports: Vec::new(),
        };
        proof {
            let p = pass@;
            let want = seen_intent(c, before.hold);
            lemma_in_order(p.keys);
            assert(p.keys.to_set() =~= p.desired.dom());
            lemma_in_order(p.idle_keys);
            assert(p.idle_keys.to_set() =~= p.idle.dom());
            assert forall|k: Seq<char>|
                ({
                    let x = c.devices.names().filter(fed_by(want, k));
                    let y = c.ap2_devices.names().filter(reached(want, k, c.ap2_devices@));
                    let z = c.pwsink_hosts.names().filter(fed_by(want, k));
                    &&& #[trigger] p.desired.contains_key(k) <==> x.len() + y.len() + z.len() > 0
                    &&& p.desired.contains_key(k) ==> exists|g: DesiredView|
                        group_of(
                            g,
                            want,
                            x,
                            y,
                            z,
                            c.devices@,
                            c.ap2_devices@,
                            c.settings.ap2_latencies@,
                        ) && p.desired[k] == #[trigger] settled(g, c.devices@, c.settings)
                }) by {
                assert(called.contains_key(k) <==> p.desired.contains_key(k));
                if p.desired.contains_key(k) {
                    assert(p.desired[k] == settled(called[k]@, c.devices@, c.settings));
                }
            }
        }
        (pass, out)
    }
}

// ---- laws -----------------------------------------------------------------------------------

/// A running group is just what is called for.
pub open spec fn as_called_for(p: PassView, d: DesiredView, g: RunningView) -> bool {
    &&& g.server is Some <==> d.sendspin_node_names.len() > 0
    &&& g.server is Some ==> {
        &&& !config_changed(
            g.server_codec,
            g.server_send_ahead_us,
            d.sendspin_codec,
            d.sendspin_send_ahead_us,
        )
        &&& p.rearm ==> g.server_send_ahead_us == d.sendspin_send_ahead_us
        &&& g.server_devices == d.sendspin_node_names
        &&& g.server_members == d.sendspin_members
    }
    &&& g.force_device_reconnect == Set::<Seq<char>>::empty()
    &&& g.ap2_members == receiver_names(d.ap2_members)
    &&& g.ap2_rate == d.ap2_rate
    &&& g.pwsink_members == d.pwsink_members
}

/// A group that is just what is called for is left alone: its sources are linked
/// again, which changes nothing where they are, and nothing else happens.
pub proof fn law_settled_groups_are_left_alone(p: PassView, r: RecView, i: usize)
    requires
        group_runs(p, r, i),
        as_called_for(p, p.desired[p.keys[i as int]], r.running[p.keys[i as int]]),
    ensures
        ({
            let key = p.keys[i as int];
            let links = link_sources(p.desired[key], r.running[key]);
            &&& anchor_step(p, r, i) == (at_stage(p, Stage::Steer(i)), r, Seq::<ActionView>::empty())
            &&& steer_step(p, r, i) == (at_stage(p, Stage::Members(i, false)), r, links)
            &&& members_step(p, r, i, false) == (
                at_stage(p, Stage::Ap2(i)),
                r,
                Seq::<ActionView>::empty(),
            )
            &&& ap2_step(p, r, i) == (at_stage(p, Stage::PwSink(i)), r, Seq::<ActionView>::empty())
            &&& pwsink_step(p, r, i) == (at_stage(p, behind(p, i)), r, Seq::<ActionView>::empty())
        }),
{
    let key = p.keys[i as int];
    let d = p.desired[key];
    let g = r.running[key];
    let forced = in_order(g.force_device_reconnect);
    let none = Seq::<Seq<char>>::empty();
    assert(none.to_set() =~= Set::<Seq<char>>::empty());
    lemma_in_order(none);
    assert(forced == none);
    let gone = renewed(p.fullnames, d.sendspin_members, forced, forced.len() as int);
    assert(gone =~= none);
    let next = noted(d, g);
    assert(next == g);
    lemma_none_gone(g.server_members);
    assert(with_group(r, key, g).running =~= r.running);
    assert(with_group(r, key, g) == r);
    assert(stop_each(g, gone) =~= Seq::<ActionView>::empty());
    assert(member_changes(d, g, false) + stop_each(g, gone) =~= Seq::<ActionView>::empty());
}

proof fn lemma_none_gone(members: Seq<Route>)
    ensures
        remaining(members, Seq::<Seq<char>>::empty()) == members,
    decreases members.len(),
{
    reveal(Seq::filter);
    if members.len() > 0 {
        lemma_none_gone(members.drop_last());
        assert(members.drop_last().push(members.last()) =~= members);
    } else {
        assert(remaining(members, Seq::<Seq<char>>::empty()) =~= members);
    }
}

/// Nothing in the list ends a server or starts one.
pub open spec fn spares_servers(actions: Seq<ActionView>) -> bool {
    forall|k: int|
        0 <= k < actions.len() ==> !(#[trigger] actions[k] is StopServer) && !(
        actions[k] is StartServer)
}

/// A server that still plays to somebody, with the same codec and lead, runs on while
/// its members come and go: what happens to them ends only the streams of members
/// that left.
pub proof fn law_membership_changes_spare_the_server(p: PassView, r: RecView, i: usize)
    requires
        group_runs(p, r, i),
        r.running[p.keys[i as int]].server is Some,
        p.desired[p.keys[i as int]].sendspin_node_names.len() > 0,
        ({
            let d = p.desired[p.keys[i as int]];
            let g = r.running[p.keys[i as int]];
            &&& !config_changed(
                g.server_codec,
                g.server_send_ahead_us,
                d.sendspin_codec,
                d.sendspin_send_ahead_us,
            )
            &&& p.rearm ==> g.server_send_ahead_us == d.sendspin_send_ahead_us
        }),
    ensures
        ({
            let key = p.keys[i as int];
            let d = p.desired[key];
            let g = r.running[key];
            let (p1, r1, a1) = steer_step(p, r, i);
            let (p2, r2, a2) = members_step(p, r, i, false);
            &&& p1 == at_stage(p, Stage::Members(i, false))
            &&& r1 == r
            &&& spares_servers(a1)
            &&& spares_servers(a2)
            &&& r2.running[key].server == g.server
            &&& r2.running[key].server_devices == d.sendspin_node_names
            &&& g.force_device_reconnect == Set::<Seq<char>>::empty() ==> {
                &&& r2.running[key].server_members == d.sendspin_members
                &&& forall|k: int|
                    0 <= k < a2.len() && #[trigger] a2[k] is StopDevice ==> !dials_name(
                        d.sendspin_members,
                        a2[k]->fullname,
                    )
            }
        }),
{
    let key = p.keys[i as int];
    let d = p.desired[key];
    let g = r.running[key];
    let server = g.server->0;
    let n = g.server_members.len() as int;
    lemma_departed(server, g.server_members, d.sendspin_members, n);
    let forced = in_order(g.force_device_reconnect);
    let gone = renewed(p.fullnames, d.sendspin_members, forced, forced.len() as int);
    let none = Seq::<Seq<char>>::empty();
    assert(none.to_set() =~= Set::<Seq<char>>::empty());
    lemma_in_order(none);
    if g.force_device_reconnect == Set::<Seq<char>>::empty() {
        assert(gone =~= none);
        lemma_none_gone(d.sendspin_members);
        assert(stop_each(g, gone) =~= Seq::<ActionView>::empty());
    }
    let a2 = members_step(p, r, i, false).2;
    let stops = stop_departed(server, g.server_members, d.sendspin_members, n);
    let changes = member_changes(d, g, false);
    assert forall|k: int| 0 <= k < changes.len() implies !(#[trigger] changes[k] is StopServer)
        && !(changes[k] is StartServer) && (changes[k] is StopDevice ==> !dials_name(
        d.sendspin_members,
        changes[k]->fullname,
    )) by {
        if k < stops.len() {
            assert(changes[k] == stops[k]);
        }
    }
    assert(a2 == changes + stop_each(g, gone));
    assert forall|k: int| 0 <= k < a2.len() implies !(#[trigger] a2[k] is StopServer) && !(
    a2[k] is StartServer) by {
        if k < changes.len() {
            assert(a2[k] == changes[k]);
        } else {
            assert(a2[k] == stop_each(g, gone)[k - changes.len()]);
        }
    }
    if g.force_device_reconnect == Set::<Seq<char>>::empty() {
        assert(a2 =~= changes);
    }
}

proof fn lemma_departed(server: u64, before: Seq<Route>, wanted: Seq<Route>, n: int)
    requires
        0 <= n <= before.len(),
    ensures
        ({
            let stops = stop_departed(server, before, wanted, n);
            forall|k: int|
                0 <= k < stops.len() ==> #[trigger] stops[k] is StopDevice && !dials_name(
                    wanted,
                    stops[k]->fullname,
                )
        }),
    decreases n,
{
    if n > 0 {
        lemma_departed(server, before, wanted, n - 1);
    }
}

/// A device that was marked is ended by itself: the group's other members stay as
/// they are, nothing else happens to them, and another pass is wanted, which dials
/// the device anew.
pub proof fn law_a_marked_device_is_renewed_alone(p: PassView, r: RecView, i: usize, dev: Seq<char>)
    requires
        group_runs(p, r, i),
        r.running[p.keys[i as int]].server is Some,
        r.running[p.keys[i as int]].force_device_reconnect == set![dev],
        r.running[p.keys[i as int]].server_members
            == p.desired[p.keys[i as int]].sendspin_members,
        p.fullnames.contains_key(dev),
        dials_name(p.desired[p.keys[i as int]].sendspin_members, p.fullnames[dev]),
    ensures
        ({
            let key = p.keys[i as int];
            let g = r.running[key];
            let full = p.fullnames[dev];
            let (p2, r2, a2) = members_step(p, r, i, false);
            &&& a2 == seq![ActionView::StopDevice { server: g.server->0, fullname: full }]
            &&& r2.running[key].server == g.server
            &&& r2.running[key].server_members == g.server_members.filter(|m: Route| m.0 != full)
            &&& r2.running[key].force_device_reconnect == Set::<Seq<char>>::empty()
            &&& r2.retry
        }),
{
    let key = p.keys[i as int];
    let d = p.desired[key];
    let g = r.running[key];
    let full = p.fullnames[dev];
    let one = seq![dev];
    assert(one.to_set() =~= set![dev]) by {
        assert(one[0] == dev);
        assert(one.to_set().contains(dev) <==> one.contains(dev));
    }
    lemma_in_order(one);
    let forced = in_order(g.force_device_reconnect);
    assert(forced == one);
    let gone = renewed(p.fullnames, d.sendspin_members, forced, 1);
    reveal_with_fuel(renewed, 2);
    assert(gone =~= seq![full]);
    let f = |m: Route| !gone.contains(m.0);
    let h = |m: Route| m.0 != full;
    assert forall|m: Route| #[trigger] f(m) == h(m) by {
        assert(gone[0] == full);
    }
    assert(f =~= h);
    assert(stop_each(g, gone) =~= seq![
        ActionView::StopDevice { server: g.server->0, fullname: full },
    ]);
    assert(member_changes(d, g, false) + stop_each(g, gone) =~= stop_each(g, gone));
}

/// No two streams share a port.
pub open spec fn ports_distinct(r: RecView) -> bool {
    &&& forall|a: Seq<char>, b: Seq<char>|
        #[trigger] r.running.contains_key(a) && #[trigger] r.running.contains_key(b) && a != b
            ==> r.running[a].port != r.running[b].port
    &&& forall|a: Seq<char>, b: Seq<char>|
        #[trigger] r.idle.contains_key(a) && #[trigger] r.idle.contains_key(b) && a != b
            ==> r.idle[a].port != r.idle[b].port
    &&& forall|a: Seq<char>, b: Seq<char>|
        #[trigger] r.running.contains_key(a) && #[trigger] r.idle.contains_key(b)
            ==> r.running[a].port != r.idle[b].port
}

/// A port that was given to a device whose sender is being started is not in use
/// by anyone else.
pub open spec fn port_waits(p: PassView, r: RecView) -> bool {
    p.stage matches Stage::IdleStarted(j, id, port) ==> {
        &&& !port_used(r, port)
        &&& j < p.idle_keys.len() ==> !r.idle.contains_key(p.idle_keys[j as int])
    }
}

/// A sink is only asked for where there is no sender or group yet.
pub open spec fn slot_waits(p: PassView, r: RecView) -> bool {
    &&& p.stage matches Stage::IdleSink(j) ==> j < p.idle_keys.len() ==> !r.idle.contains_key(
        p.idle_keys[j as int],
    )
    &&& p.stage matches Stage::Anchored(i) ==> i < p.keys.len() ==> !r.running.contains_key(
        p.keys[i as int],
    )
}

/// Whatever comes of its actions, a pass never gives one port to two streams.
pub proof fn law_ports_stay_distinct(p: PassView, r: RecView, e: Event)
    requires
        ports_distinct(r),
        port_waits(p, r),
        slot_waits(p, r),
        has_free_port(r),
    ensures
        ports_distinct(step(p, r, e).1),
        port_waits(step(p, r, e).0, step(p, r, e).1),
        slot_waits(step(p, r, e).0, step(p, r, e).1),
{
    let port = free_port(r);
    lemma_some_lowest(r);
    assert(is_lowest_free(r, port));
    assert(!port_used(r, port));
    let (p2, r2, a2) = step(p, r, e);
    match p.stage {
        Stage::Anchored(i) => {
            if i < p.keys.len() {
                let key = p.keys[i as int];
                assert forall|a: Seq<char>, b: Seq<char>|
                    #[trigger] r2.running.contains_key(a) && #[trigger] r2.running.contains_key(b)
                        && a != b implies r2.running[a].port != r2.running[b].port by {
                    if a != key && b != key {
                        assert(r.running.contains_key(a) && r.running.contains_key(b));
                    } else if a == key {
                        assert(r.running.contains_key(b));
                    } else {
                        assert(r.running.contains_key(a));
                    }
                }
                assert forall|a: Seq<char>, b: Seq<char>|
                    #[trigger] r2.running.contains_key(a) && #[trigger] r2.idle.contains_key(
                        b,
                    ) implies r2.running[a].port != r2.idle[b].port by {
                    assert(r.idle.contains_key(b));
                    if a != key {
                        assert(r.running.contains_key(a));
                    }
                }
            }
        },
        Stage::IdleStarted(j, id, given) => {
            if j < p.idle_keys.len() {
                let dev = p.idle_keys[j as int];
                assert forall|a: Seq<char>, b: Seq<char>|
                    #[trigger] r2.idle.contains_key(a) && #[trigger] r2.idle.contains_key(b) && a
                        != b implies r2.idle[a].port != r2.idle[b].port by {
                    if a != dev && b != dev {
                        assert(r.idle.contains_key(a) && r.idle.contains_key(b));
                    } else if a == dev {
                        assert(r.idle.contains_key(b));
                    } else {
                        assert(r.idle.contains_key(a));
                    }
                }
                assert forall|a: Seq<char>, b: Seq<char>|
                    #[trigger] r2.running.contains_key(a) && #[trigger] r2.idle.contains_key(
                        b,
                    ) implies r2.running[a].port != r2.idle[b].port by {
                    assert(r.running.contains_key(a));
                    if b != dev {
                        assert(r.idle.contains_key(b));
                    }
                }
            }
        },
        Stage::Steer(i) => {
            lemma_same_ports(p, r, i, r2);
        },
        Stage::Serving(i) => {
            lemma_same_ports(p, r, i, r2);
        },
        Stage::Members(i, restarted) => {
            lemma_same_ports(p, r, i, r2);
        },
        Stage::Ap2(i) => {
            lemma_same_ports(p, r, i, r2);
        },
        Stage::Ap2Started(i) => {
            lemma_same_ports(p, r, i, r2);
        },
        Stage::PwSink(i) => {
            lemma_same_ports(p, r, i, r2);
        },
        Stage::PwSinkStarted(i) => {
            lemma_same_ports(p, r, i, r2);
        },
        _ => {},
    }
}

proof fn lemma_same_ports(p: PassView, r: RecView, i: usize, r2: RecView)
    requires
        ports_distinct(r),
        r2.idle == r.idle,
        group_runs(p, r, i) ==> {
            let key = p.keys[i as int];
            r2.running == r.running || (r2.running == r.running.insert(key, r2.running[key])
                && r2.running[key].port == r.running[key].port)
        },
        !group_runs(p, r, i) ==> r2.running == r.running,
    ensures
        ports_distinct(r2),
{
    assert forall|a: Seq<char>| #[trigger] r2.running.contains_key(a) implies r.running.contains_key(
        a,
    ) && r2.running[a].port == r.running[a].port by {}
}

proof fn lemma_some_lowest(r: RecView)
    requires
        has_free_port(r),
    ensures
        is_lowest_free(r, free_port(r)),
{
    let p = choose|p: u16| p >= crate::reconciler::GROUP_BASE_PORT && !#[trigger] port_used(r, p);
    lemma_lowest_below(r, p);
}

proof fn lemma_lowest_below(r: RecView, p: u16)
    requires
        p >= crate::reconciler::GROUP_BASE_PORT,
        !port_used(r, p),
    ensures
        exists|q: u16| is_lowest_free(r, q),
    decreases p,
{
    if !is_lowest_free(r, p) {
        let q = choose|q: u16|
            crate::reconciler::GROUP_BASE_PORT <= q < p && !#[trigger] port_used(r, q);
        lemma_lowest_below(r, q);
    }
}

/// Once a pass has begun, nobody who is about to be dialed for a group is still
/// dialed on the side, every group that runs is called for, and ports are as
/// distinct as before.
pub proof fn law_nobody_is_dialed_twice(
    r: RecView,
    d: Map<Seq<char>, DesiredView>,
    c: Scene,
)
    ensures
        ({
            let idle = idle_plans(c, grouped_devices(d)).dom();
            let (r2, actions) = tear_down(r, d, idle, c.ap2_devices@, c.pwsink_hosts@.dom());
            &&& forall|k: Seq<char>| #[trigger] r2.running.contains_key(k) ==> d.contains_key(k)
            &&& forall|n: Seq<char>| #[trigger]
                r2.idle.contains_key(n) ==> !grouped_devices(d).contains(n)
            &&& forall|o: Seq<char>| #[trigger]
                r2.sessions.contains_key(o) ==> !grouped_dialed(d).contains(o)
            &&& ports_distinct(r) ==> ports_distinct(r2)
        }),
{
    let idle = idle_plans(c, grouped_devices(d)).dom();
    let (r2, actions) = tear_down(r, d, idle, c.ap2_devices@, c.pwsink_hosts@.dom());
    assert forall|n: Seq<char>| #[trigger] r2.idle.contains_key(n) implies !grouped_devices(
        d,
    ).contains(n) by {
        assert(idle.contains(n));
    }
    assert forall|o: Seq<char>| #[trigger] r2.sessions.contains_key(o) implies !grouped_dialed(
        d,
    ).contains(o) by {
        assert(!session_ends(d, c.ap2_devices@, c.pwsink_hosts@.dom())(o));
    }
    if ports_distinct(r) {
        assert forall|a: Seq<char>| #[trigger] r2.running.contains_key(a) implies
            r.running.contains_key(a) && r2.running[a].port == r.running[a].port by {}
        assert forall|a: Seq<char>| #[trigger] r2.idle.contains_key(a) implies r.idle.contains_key(
            a,
        ) && r2.idle[a].port == r.idle[a].port by {}
    }
}

/// Only what was added is connected to: an output that was not adopted keeps no idle
/// sender and, while no alignment holds outputs, no route to it is seen.
pub proof fn law_only_adopted_outputs_are_connected(
    c: Scene,
    grouped: Set<Seq<char>>,
    output: Seq<char>,
    source: Seq<char>,
)
    requires
        !c.adopted@.contains(output),
    ensures
        !idle_plans(c, grouped).contains_key(output),
        !seen_intent(c, None).contains((source, output)),
{
    broadcast use vstd::seq_lib::group_filter_ensures;

}

/// The weight of the devices from `j` on.
pub open spec fn devices_left(p: PassView, j: usize) -> int {
    if j < p.idle_keys.len() {
        3 * (p.idle_keys.len() - j)
    } else {
        0
    }
}

/// The weight of the groups from `i` on, and of all devices.
pub open spec fn groups_left(p: PassView, i: usize) -> int {
    3 * p.idle_keys.len() + 4 + if i < p.keys.len() {
        10 * (p.keys.len() - i)
    } else {
        0
    }
}

/// What is left to do, as a number.
pub open spec fn rank(p: PassView) -> int {
    match p.stage {
        Stage::Anchor(i) => groups_left(p, i) + 9,
        Stage::Anchored(i) => groups_left(p, i) + 8,
        Stage::Steer(i) => groups_left(p, i) + 7,
        Stage::Serving(i) => groups_left(p, i) + 6,
        Stage::Members(i, _) => groups_left(p, i) + 5,
        Stage::Ap2(i) => groups_left(p, i) + 4,
        Stage::Ap2Started(i) => groups_left(p, i) + 3,
        Stage::PwSink(i) => groups_left(p, i) + 2,
        Stage::PwSinkStarted(i) => groups_left(p, i) + 1,
        Stage::Idle(j) => devices_left(p, j) + 3,
        Stage::IdleSink(j) => devices_left(p, j) + 2,
        Stage::IdleStarted(j, _, _) => devices_left(p, j) + 1,
        Stage::Finished => 0,
    }
}

/// Every pass ends: each step leaves less to do, whatever comes of its actions, and
/// what is called for stays as it was planned.
pub proof fn law_a_pass_ends(p: PassView, r: RecView, e: Event)
    requires
        p.stage != Stage::Finished,
        p.keys.len() <= usize::MAX,
        p.idle_keys.len() <= usize::MAX,
    ensures
        0 <= rank(step(p, r, e).0) < rank(p),
        step(p, r, e).0.desired == p.desired,
        step(p, r, e).0.keys == p.keys,
        step(p, r, e).0.idle == p.idle,
        step(p, r, e).0.idle_keys == p.idle_keys,
{
    match p.stage {
        Stage::Anchor(i) => {
            assert(rank(anchor_step(p, r, i).0) < rank(p));
        },
        Stage::Anchored(i) => {
            assert(rank(anchored_step(p, r, i, e).0) < rank(p));
        },
        Stage::Steer(i) => {
            assert(rank(steer_step(p, r, i).0) < rank(p));
        },
        Stage::Serving(i) => {
            assert(rank(serving_step(p, r, i, e).0) < rank(p));
        },
        Stage::Members(i, restarted) => {
            assert(rank(members_step(p, r, i, restarted).0) < rank(p));
        },
        Stage::Ap2(i) => {
            assert(rank(ap2_step(p, r, i).0) < rank(p));
        },
        Stage::Ap2Started(i) => {
            assert(rank(ap2_started_step(p, r, i, e).0) < rank(p));
        },
        Stage::PwSink(i) => {
            assert(rank(pwsink_step(p, r, i).0) < rank(p));
        },
        Stage::PwSinkStarted(i) => {
            assert(rank(pwsink_started_step(p, r, i, e).0) < rank(p));
        },
        Stage::Idle(j) => {
            assert(rank(idle_step(p, r, j).0) < rank(p));
        },
        Stage::IdleSink(j) => {
            assert(rank(idle_sink_step(p, r, j, e).0) < rank(p));
        },
        Stage::IdleStarted(j, id, port) => {
            assert(rank(idle_started_step(p, r, j, id, port, e).0) < rank(p));
        },
        Stage::Finished => {},
    }
}

/// What could not be started is tried again: a start that failed leaves another pass
/// wanted, and no step takes such a wish back.
pub proof fn law_failed_starts_are_retried(p: PassView, r: RecView, e: Event)
    ensures
        r.retry ==> step(p, r, e).1.retry,
        e == Event::Started(None) && (p.stage matches Stage::Serving(i) && group_runs(p, r, i))
            ==> step(p, r, e).1.retry,
        e == Event::Started(None) && (p.stage matches Stage::Ap2Started(i) && group_runs(p, r, i))
            ==> step(p, r, e).1.retry,
        e == Event::Started(None) && (p.stage matches Stage::PwSinkStarted(i) && group_runs(
            p,
            r,
            i,
        )) ==> step(p, r, e).1.retry,
        e == Event::Started(None) && (p.stage matches Stage::IdleStarted(j, id, port) && j
            < p.idle_keys.len()) ==> step(p, r, e).1.retry && step(p, r, e).2 == seq![
            ActionView::DestroySink { node_id: p.stage->IdleStarted_1 },
        ],
{
}

// ---- laws of the stages ------------------------------------------------------------------

/// The receivers that play are the called-for ones: as many, and each by its name.
pub open spec fn same_receivers(wanted: Seq<Ap2Dial>, playing: Seq<Seq<char>>) -> bool {
    wanted.len() == playing.len() && forall|k: int|
        0 <= k < wanted.len() ==> (#[trigger] wanted[k]).0 == playing[k]
}

/// The AirPlay senders follow the routes. Where the receivers that are called for
/// are not those that play, or the rate is another one, what runs is dropped, and a
/// sender for exactly the receivers that are called for, at the rate that is called
/// for and on the group's own anchor, is started where there are any. Where they are
/// the same, nothing is done. Once the sender has started, the group plays to
/// exactly those receivers at that rate.
pub proof fn law_airplay_follows_the_routes(p: PassView, r: RecView, i: usize, e: Event)
    requires
        p.stage == Stage::Ap2(i),
        i < p.keys.len(),
        r.running.contains_key(p.keys[i as int]),
    ensures
        ({
            let d = p.desired[p.keys[i as int]];
            let g = r.running[p.keys[i as int]];
            let (p2, r2, todo) = step(p, r, e);
            let changed = !same_receivers(d.ap2_members, g.ap2_members) || d.ap2_rate
                != g.ap2_rate;
            &&& changed && g.ap2_sender is Some ==> todo.len() > 0 && todo[0]
                == (ActionView::DropAp2 { sender: g.ap2_sender->0 })
            &&& changed && d.ap2_members.len() > 0 ==> p2.stage == Stage::Ap2Started(i)
                && todo.len() > 0 && todo.last() == (ActionView::StartAp2 {
                members: d.ap2_members,
                node_id: g.anchor_node_id,
                rate: d.ap2_rate,
            })
            &&& changed && d.ap2_members.len() == 0 ==> p2.stage == Stage::PwSink(i)
                && forall|k: int|
                0 <= k < todo.len() ==> (#[trigger] todo[k]) !is StartAp2
            &&& changed ==> r2.running.contains_key(p.keys[i as int])
                && r2.running[p.keys[i as int]].ap2_sender is None
                && r2.running[p.keys[i as int]].ap2_members.len() == 0
            &&& changed ==> todo.len() == (if g.ap2_sender is Some {
                1int
            } else {
                0
            }) + (if d.ap2_members.len() > 0 {
                1int
            } else {
                0
            })
            &&& !changed ==> todo.len() == 0 && r2 == r && p2.stage == Stage::PwSink(i)
        }),
{
    let d = p.desired[p.keys[i as int]];
    let g = r.running[p.keys[i as int]];
    let names = receiver_names(d.ap2_members);
    if same_receivers(d.ap2_members, g.ap2_members) {
        assert(names =~= g.ap2_members);
    } else if names == g.ap2_members {
        assert forall|k: int| 0 <= k < d.ap2_members.len() implies (
        #[trigger] d.ap2_members[k]).0 == g.ap2_members[k] by {
            assert(names[k] == d.ap2_members[k].0);
        }
    }
}

/// Once an AirPlay sender has started, the group is known to play to exactly the
/// called-for receivers at the called-for rate, through that sender, so that the next
/// pass over the same routes leaves it alone; where it did not start, another pass is
/// wanted.
pub proof fn law_a_started_airplay_sender_is_noted(
    p: PassView,
    r: RecView,
    i: usize,
    e: Event,
    p_next: PassView,
)
    requires
        p.stage == Stage::Ap2Started(i),
        i < p.keys.len(),
        r.running.contains_key(p.keys[i as int]),
        p_next.stage == Stage::Ap2(i),
        p_next.keys == p.keys,
        p_next.desired == p.desired,
    ensures
        ({
            let key = p.keys[i as int];
            let d = p.desired[key];
            let (p2, r2, todo) = step(p, r, e);
            &&& p2.stage == Stage::PwSink(i)
            &&& todo.len() == 0
            &&& e matches Event::Started(Some(h)) ==> {
                &&& r2.running[key].ap2_sender == Some(h)
                &&& r2.running[key].ap2_rate == d.ap2_rate
                &&& same_receivers(d.ap2_members, r2.running[key].ap2_members)
                &&& r2.retry == r.retry
                &&& step(p_next, r2, Event::Done).1 == r2
                &&& step(p_next, r2, Event::Done).2.len() == 0
            }
            &&& !(e matches Event::Started(Some(h))) ==> r2.retry && r2.running == r.running
        }),
{
}

/// The senders to remote hosts follow the routes. Where the hosts that are called
/// for are not those that play, what runs is dropped, and senders to the called-for
/// hosts, in order, each with its stored playout delay or the default one, are
/// started on the group's own anchor where there are any. Where they are the same,
/// nothing is done.
pub proof fn law_hosts_follow_the_routes(p: PassView, r: RecView, i: usize, e: Event)
    requires
        p.stage == Stage::PwSink(i),
        i < p.keys.len(),
        r.running.contains_key(p.keys[i as int]),
    ensures
        ({
            let d = p.desired[p.keys[i as int]];
            let g = r.running[p.keys[i as int]];
            let (p2, r2, todo) = step(p, r, e);
            let changed = d.pwsink_members != g.pwsink_members;
            &&& !changed ==> todo.len() == 0 && r2 == r
            &&& changed && g.pwsink_server is Some ==> todo.len() > 0 && todo[0]
                == (ActionView::DropPwSink { server: g.pwsink_server->0 })
            &&& changed ==> r2.running[p.keys[i as int]].pwsink_server is None
                && r2.running[p.keys[i as int]].pwsink_members.len() == 0
                && r2.running[p.keys[i as int]].pwsink_ports.len() == 0
            &&& changed && d.pwsink_members.len() == 0 ==> forall|k: int|
                0 <= k < todo.len() ==> (#[trigger] todo[k]) !is StartPwSink
            &&& changed && d.pwsink_members.len() > 0 ==> {
                &&& p2.stage == Stage::PwSinkStarted(i)
                &&& todo.len() > 0
                &&& todo.last() is StartPwSink
                &&& todo.last()->StartPwSink_node_id == g.anchor_node_id
                &&& todo.last()->StartPwSink_members.len() == if p2.ports.len()
                    < d.pwsink_members.len() {
                    p2.ports.len()
                } else {
                    d.pwsink_members.len()
                }
                &&& forall|k: int|
                    0 <= k < todo.last()->StartPwSink_members.len() ==> {
                        let m = #[trigger] todo.last()->StartPwSink_members[k];
                        let name = d.pwsink_members[k];
                        &&& m.0 == name
                        &&& m.1 == p2.ports[k]
                        &&& p.jitters.contains_key(name) ==> m.2 == p.jitters[name]
                        &&& !p.jitters.contains_key(name) ==> m.2 == p.default_jitter_ms
                    }
            }
        }),
{
}

/// Once the senders to hosts have started, the group is known to play to exactly the
/// called-for hosts, on the ports they were given; where they did not start, another
/// pass is wanted.
pub proof fn law_started_hosts_are_noted(p: PassView, r: RecView, i: usize, e: Event)
    requires
        p.stage == Stage::PwSinkStarted(i),
        i < p.keys.len(),
        r.running.contains_key(p.keys[i as int]),
    ensures
        ({
            let key = p.keys[i as int];
            let (p2, r2, todo) = step(p, r, e);
            &&& todo.len() == 0
            &&& p2.stage == Stage::Anchor((i + 1) as usize)
            &&& e matches Event::Started(Some(h)) ==> {
                &&& r2.running[key].pwsink_server == Some(h)
                &&& r2.running[key].pwsink_members == p.desired[key].pwsink_members
                &&& r2.running[key].pwsink_ports == p.ports
                &&& r2.retry == r.retry
            }
            &&& !(e matches Event::Started(Some(h))) ==> r2.retry && r2.running == r.running
        }),
{
}

/// Every source of a group is linked into its anchor in each pass. Its sendspin
/// server ends where no device is routed to it. It starts anew, after the one that
/// runs was ended, where there is none, where the codec is another one, where the
/// lead does not suffice, and, if that was asked for, where the lead is another one;
/// otherwise it keeps running. It is started on the group's own anchor and port, for
/// the called-for members with the called-for codec and lead.
pub proof fn law_the_server_follows_the_routes(p: PassView, r: RecView, i: usize, e: Event)
    requires
        p.stage == Stage::Steer(i),
        i < p.keys.len(),
        r.running.contains_key(p.keys[i as int]),
    ensures
        ({
            let key = p.keys[i as int];
            let d = p.desired[key];
            let g = r.running[key];
            let (p2, r2, todo) = step(p, r, e);
            let routed = d.sendspin_node_names.len() > 0;
            let stale = d.sendspin_codec != g.server_codec || d.sendspin_send_ahead_us
                > g.server_send_ahead_us || (p.rearm && d.sendspin_send_ahead_us
                != g.server_send_ahead_us);
            let n = d.sources.len() as int;
            &&& todo.len() >= n
            &&& forall|k: int|
                0 <= k < n ==> #[trigger] todo[k] == (ActionView::Link {
                    source: d.sources[k],
                    sink: g.anchor_node_name,
                })
            &&& !routed && g.server is None ==> todo.len() == n && r2 == r && p2.stage
                == Stage::Members(i, false)
            &&& !routed && g.server is Some ==> todo.len() == n + 1 && todo[n]
                == (ActionView::StopServer { server: g.server->0 }) && r2.running[key].server is None
                && r2.running[key].server_members.len() == 0
                && r2.running[key].server_devices.len() == 0 && p2.stage == Stage::Members(i, false)
            &&& routed && g.server is Some && !stale ==> todo.len() == n && r2 == r && p2.stage
                == Stage::Members(i, false)
            &&& routed && g.server is Some && stale ==> todo.len() == n + 2 && todo[n]
                == (ActionView::StopServer { server: g.server->0 })
            &&& routed && g.server is None ==> todo.len() == n + 1
            &&& routed && (g.server is None || stale) ==> {
                &&& p2.stage == Stage::Serving(i)
                &&& r2.running[key].server is None
                &&& todo.last() is StartServer
                &&& todo.last()->StartServer_members == d.sendspin_members
                &&& todo.last()->codec == d.sendspin_codec
                &&& todo.last()->send_ahead_us == d.sendspin_send_ahead_us
                &&& todo.last()->port == g.port
                &&& todo.last()->StartServer_node_id == g.anchor_node_id
                &&& todo.last()->sink_node_name == g.anchor_node_name
                &&& todo.last()->policy == StreamPolicy::Always
            }
        }),
{
}

/// Once a group's server has started it is known with the codec and the lead it was
/// started with; where it did not start, another pass is wanted.
pub proof fn law_a_started_server_is_noted(p: PassView, r: RecView, i: usize, e: Event)
    requires
        p.stage == Stage::Serving(i),
        i < p.keys.len(),
        r.running.contains_key(p.keys[i as int]),
    ensures
        ({
            let key = p.keys[i as int];
            let (p2, r2, todo) = step(p, r, e);
            &&& todo.len() == 0
            &&& p2.stage == Stage::Members(i, true)
            &&& e matches Event::Started(Some(h)) ==> {
                &&& r2.running[key].server == Some(h)
                &&& r2.running[key].server_codec == p.desired[key].sendspin_codec
                &&& r2.running[key].server_send_ahead_us == p.desired[key].sendspin_send_ahead_us
                &&& r2.retry == r.retry
            }
            &&& !(e matches Event::Started(Some(h))) ==> r2.retry && r2.running == r.running
        }),
{
}

proof fn lemma_stop_departed(server: u64, before: Seq<Route>, wanted: Seq<Route>, n: int)
    requires
        0 <= n <= before.len(),
    ensures
        forall|k: int|
            0 <= k < n && (forall|m: int|
                0 <= m < wanted.len() ==> (#[trigger] wanted[m]).0 != before[k].0)
                ==> stop_departed(server, before, wanted, n).contains(
                ActionView::StopDevice { server, fullname: (#[trigger] before[k]).0 },
            ),
        forall|a: ActionView| #[trigger]
            stop_departed(server, before, wanted, n).contains(a) ==> exists|k: int|
                0 <= k < n && a == (ActionView::StopDevice {
                    server,
                    fullname: (#[trigger] before[k]).0,
                }) && forall|m: int|
                    0 <= m < wanted.len() ==> (#[trigger] wanted[m]).0 != before[k].0,
    decreases n,
{
    if n > 0 {
        lemma_stop_departed(server, before, wanted, n - 1);
        let rest = stop_departed(server, before, wanted, n - 1);
        let all = stop_departed(server, before, wanted, n);
        let last = ActionView::StopDevice { server, fullname: before[n - 1].0 };
        lemma_push_contains(rest, last);
        assert forall|k: int|
            0 <= k < n && (forall|m: int|
                0 <= m < wanted.len() ==> (#[trigger] wanted[m]).0 != before[k].0)
            implies all.contains(
            ActionView::StopDevice { server, fullname: (#[trigger] before[k]).0 },
        ) by {
            if k == n - 1 {
                if dials_name(wanted, before[k].0) {
                    let m = choose|m: int|
                        0 <= m < wanted.len() && (#[trigger] wanted[m]).0 == before[k].0;
                    assert(wanted[m].0 != before[k].0);
                }
            } else {
                assert(rest.contains(ActionView::StopDevice { server, fullname: before[k].0 }));
            }
        }
        assert forall|a: ActionView| #[trigger] all.contains(a) implies exists|k: int|
            0 <= k < n && a == (ActionView::StopDevice {
                server,
                fullname: (#[trigger] before[k]).0,
            }) && forall|m: int|
                0 <= m < wanted.len() ==> (#[trigger] wanted[m]).0 != before[k].0 by {
            if rest.contains(a) {
                let k = choose|k: int|
                    0 <= k < n - 1 && a == (ActionView::StopDevice {
                        server,
                        fullname: (#[trigger] before[k]).0,
                    }) && forall|m: int|
                        0 <= m < wanted.len() ==> (#[trigger] wanted[m]).0 != before[k].0;
                assert(0 <= k < n);
            } else {
                assert(a == last);
                assert forall|m: int| 0 <= m < wanted.len() implies (#[trigger] wanted[m]).0
                    != before[n - 1].0 by {
                    assert(!dials_name(wanted, before[n - 1].0));
                }
                assert(0 <= n - 1 < n && a == (ActionView::StopDevice {
                    server,
                    fullname: before[n - 1].0,
                }));
            }
        }
    }
}

/// Where the members of a server that keeps running changed, each one that is not
/// called for any more is ended, no called-for one is, unless it was marked, and the
/// server is told the called-for members. A server that just started has them
/// already, and one whose members are the same is left alone.
pub proof fn law_departed_members_are_ended(
    p: PassView,
    r: RecView,
    i: usize,
    restarted: bool,
    e: Event,
)
    requires
        p.stage == Stage::Members(i, restarted),
        i < p.keys.len(),
        r.running.contains_key(p.keys[i as int]),
        r.running[p.keys[i as int]].force_device_reconnect == Set::<Seq<char>>::empty(),
    ensures
        ({
            let key = p.keys[i as int];
            let d = p.desired[key];
            let g = r.running[key];
            let (p2, r2, todo) = step(p, r, e);
            &&& p2.stage == Stage::Ap2(i)
            &&& g.server is None ==> todo.len() == 0 && r2.running[key].server_members
                == g.server_members
            &&& g.server is Some ==> r2.running[key].server_members == d.sendspin_members
                && r2.running[key].server_devices == d.sendspin_node_names
            &&& restarted || d.sendspin_members == g.server_members ==> todo.len() == 0
            &&& !restarted && g.server is Some && d.sendspin_members != g.server_members ==> {
                &&& todo.len() > 0
                &&& todo.last() == (ActionView::Supervise {
                    server: g.server->0,
                    members: d.sendspin_members,
                })
                &&& forall|k: int|
                    0 <= k < g.server_members.len() && (forall|m: int|
                        0 <= m < d.sendspin_members.len() ==> (#[trigger] d.sendspin_members[m]).0
                            != g.server_members[k].0) ==> todo.contains(
                        ActionView::StopDevice {
                            server: g.server->0,
                            fullname: (#[trigger] g.server_members[k]).0,
                        },
                    )
                &&& forall|m: int, a: ActionView|
                    #![trigger d.sendspin_members[m], todo.contains(a)]
                    0 <= m < d.sendspin_members.len() && todo.contains(a) ==> a
                        != (ActionView::StopDevice {
                        server: g.server->0,
                        fullname: d.sendspin_members[m].0,
                    })
            }
        }),
{
    let key = p.keys[i as int];
    let d = p.desired[key];
    let g = r.running[key];
    let none = Seq::<Seq<char>>::empty();
    assert(none.to_set() =~= Set::<Seq<char>>::empty());
    lemma_in_order(none);
    let forced = in_order(g.force_device_reconnect);
    assert(forced == none);
    let gone = renewed(p.fullnames, d.sendspin_members, forced, 0);
    assert(gone =~= none);
    let next = noted(d, g);
    assert(remaining(next.server_members, gone) == next.server_members) by {
        lemma_remaining_all(next.server_members);
        assert(gone == none);
    }
    assert(stop_each(g, gone) =~= Seq::<ActionView>::empty());
    let todo = step(p, r, e).2;
    assert(todo =~= member_changes(d, g, restarted));
    if !restarted && g.server is Some && d.sendspin_members != g.server_members {
        let server = g.server->0;
        let n = g.server_members.len() as int;
        lemma_stop_departed(server, g.server_members, d.sendspin_members, n);
        let stops = stop_departed(server, g.server_members, d.sendspin_members, n);
        let told = ActionView::Supervise { server, members: d.sendspin_members };
        assert(todo == stops.push(told));
        lemma_push_contains(stops, told);
        assert(todo.last() == told);
        assert forall|m: int, a: ActionView|
            #![trigger d.sendspin_members[m], todo.contains(a)]
            0 <= m < d.sendspin_members.len() && todo.contains(a) implies a
            != (ActionView::StopDevice { server, fullname: d.sendspin_members[m].0 }) by {
            if stops.contains(a) {
                let k = choose|k: int|
                    0 <= k < n && a == (ActionView::StopDevice {
                        server,
                        fullname: (#[trigger] g.server_members[k]).0,
                    }) && forall|m: int|
                        0 <= m < d.sendspin_members.len() ==> (#[trigger] d.sendspin_members[m]).0
                            != g.server_members[k].0;
                assert(d.sendspin_members[m].0 != g.server_members[k].0);
            }
        }
    }
}

proof fn lemma_remaining_all(members: Seq<Route>)
    ensures
        remaining(members, Seq::<Seq<char>>::empty()) == members,
    decreases members.len(),
{
    reveal(Seq::filter);
    if members.len() > 0 {
        lemma_remaining_all(members.drop_last());
        assert(members.drop_last().push(members.last()) =~= members);
        let keep = |m: Route| !Seq::<Seq<char>>::empty().contains(m.0);
        assert(keep(members.last()));
    }
    assert(remaining(members, Seq::<Seq<char>>::empty()) =~= members);
}

/// A group that is called for and does not run gets its anchor: a sink named after
/// it is created, and once it appeared the group runs on that node, with nothing
/// playing yet and a port from the base on that no one else has. One that runs keeps
/// its anchor.
pub proof fn law_called_for_groups_get_an_anchor(p: PassView, r: RecView, i: usize, e: Event)
    requires
        i < p.keys.len(),
    ensures
        p.stage == Stage::Anchor(i) && r.running.contains_key(p.keys[i as int]) ==> step(
            p,
            r,
            e,
        ) == (PassView { stage: Stage::Steer(i), ..p }, r, Seq::<ActionView>::empty()),
        p.stage == Stage::Anchor(i) && !r.running.contains_key(p.keys[i as int]) ==> {
            let (p2, r2, todo) = step(p, r, e);
            &&& p2.stage == Stage::Anchored(i)
            &&& r2 == r
            &&& todo == seq![
                ActionView::CreateSink {
                    node_name: SYNC_GRP_PREFIX@ + hex(key_number(p.keys[i as int]) as int, 16),
                },
            ]
        },
        p.stage == Stage::Anchored(i) ==> {
            let key = p.keys[i as int];
            let (p2, r2, todo) = step(p, r, e);
            &&& todo.len() == 0
            &&& e matches Event::Node(Some(id)) ==> {
                let g = r2.running[key];
                &&& p2.stage == Stage::Steer(i)
                &&& r2.running.contains_key(key)
                &&& g.anchor_node_id == id
                &&& g.anchor_node_name == SYNC_GRP_PREFIX@ + hex(key_number(key) as int, 16)
                &&& g.server is None
                &&& g.ap2_sender is None
                &&& g.ap2_members.len() == 0
                &&& g.pwsink_server is None
                &&& g.pwsink_members.len() == 0
                &&& g.pwsink_ports.len() == 0
                &&& has_free_port(r) ==> g.port >= 8930 && !port_used(r, g.port)
                    && forall|q: u16|
                    8930 <= q < g.port ==> #[trigger] port_used(r, q)
                &&& r2.retry == r.retry
            }
            &&& !(e matches Event::Node(Some(id))) ==> r2.running == r.running && p2.stage
                == Stage::Anchor((i + 1) as usize)
            &&& e == Event::Node(None) ==> r2.retry
            &&& e == Event::Unreachable ==> r2.retry == r.retry
        },
{
    if has_free_port(r) {
        lemma_some_lowest(r);
    }
}

/// A device that is to keep an idle sender and has none gets one: a sink of its own,
/// and once that appeared, a server on it that dials this device alone and streams
/// only for announcements. Where the server does not start its sink is taken away
/// again and another pass is wanted.
pub proof fn law_idle_devices_get_a_sender(p: PassView, r: RecView, j: usize, e: Event)
    requires
        j < p.idle_keys.len(),
    ensures
        p.stage == Stage::Idle(j) && !r.idle.contains_key(p.idle_keys[j as int]) ==> {
            let (p2, r2, todo) = step(p, r, e);
            &&& p2.stage == Stage::IdleSink(j)
            &&& r2 == r
            &&& todo.len() == 1
            &&& todo[0] is CreateSink
        },
        p.stage == Stage::Idle(j) && r.idle.contains_key(p.idle_keys[j as int]) ==> {
            let (p2, r2, todo) = step(p, r, e);
            &&& p2.stage == Stage::Idle((j + 1) as usize)
            &&& r2 == r
            &&& todo.len() == 0
        },
        p.stage == Stage::IdleSink(j) ==> {
            let dev = p.idle_keys[j as int];
            let plan = p.idle[dev];
            let (p2, r2, todo) = step(p, r, e);
            &&& r2.idle == r.idle
            &&& e matches Event::Node(Some(id)) ==> {
                &&& plan.url is Some ==> {
                    &&& todo.len() == 1
                    &&& todo[0] is StartServer
                    &&& todo[0]->StartServer_members == seq![(plan.fullname, plan.url->0)]
                    &&& todo[0]->StartServer_node_id == id
                    &&& todo[0]->codec == plan.codec
                    &&& todo[0]->send_ahead_us == plan.send_ahead_us
                    &&& todo[0]->policy == StreamPolicy::WhenAnnounced
                    &&& p2.stage == Stage::IdleStarted(j, id, todo[0]->port)
                    &&& has_free_port(r) ==> todo[0]->port >= 8930 && !port_used(
                        r,
                        todo[0]->port,
                    )
                }
                &&& plan.url is None ==> r2.retry && todo.len() == 0
            }
            &&& e == Event::Node(None) ==> r2.retry && todo.len() == 0 && p2.stage
                == Stage::Idle((j + 1) as usize)
        },
        match p.stage {
            Stage::IdleStarted(at, id, port) => at == j ==> {
                let dev = p.idle_keys[j as int];
                let (p2, r2, todo) = step(p, r, e);
                &&& p2.stage == Stage::Idle((j + 1) as usize)
                &&& e matches Event::Started(Some(h)) ==> {
                    &&& todo.len() == 0
                    &&& r2.idle.contains_key(dev)
                    &&& r2.idle[dev].server == h
                    &&& r2.idle[dev].sink_node_id == id
                    &&& r2.idle[dev].port == port
                    &&& r2.retry == r.retry
                }
                &&& !(e matches Event::Started(Some(h))) ==> r2.idle == r.idle && r2.retry && todo
                    == seq![ActionView::DestroySink { node_id: id }]
            },
            _ => true,
        },
{
    if has_free_port(r) {
        lemma_some_lowest(r);
    }
}

/// The sink that an idle sender is started on is the one that was created for it, and
/// it is the one noted for it.
pub proof fn law_an_idle_sender_plays_on_its_own_sink(
    p: PassView,
    r: RecView,
    j: usize,
    id: u32,
    port: u16,
    h: u64,
)
    requires
        p.stage == Stage::Idle(j),
        j < p.idle_keys.len(),
        !r.idle.contains_key(p.idle_keys[j as int]),
        p.idle[p.idle_keys[j as int]].url is Some,
    ensures
        ({
            let dev = p.idle_keys[j as int];
            let first = step(p, r, Event::Done);
            let second = step(first.0, first.1, Event::Node(Some(id)));
            let third = step(second.0, second.1, Event::Started(Some(h)));
            &&& first.2[0]->CreateSink_node_name == second.2[0]->sink_node_name
            &&& third.1.idle[dev].sink_node_name == first.2[0]->CreateSink_node_name
            &&& third.1.idle[dev].port == second.2[0]->port
        }),
{
}

/// A step for one group touches no other group, no idle sender, no session and no
/// hold; a step for an idle sender touches no group and no other idle sender. Nothing
/// in a step takes back that another pass is wanted, or changes what the pass is for.
pub proof fn law_a_step_keeps_to_its_own(p: PassView, r: RecView, e: Event, other: Seq<char>)
    ensures
        ({
            let (p2, r2, todo) = step(p, r, e);
            let group = match p.stage {
                Stage::Anchor(i)
                | Stage::Anchored(i)
                | Stage::Steer(i)
                | Stage::Serving(i)
                | Stage::Members(i, _)
                | Stage::Ap2(i)
                | Stage::Ap2Started(i)
                | Stage::PwSink(i)
                | Stage::PwSinkStarted(i) => Some(i),
                _ => None,
            };
            let device = match p.stage {
                Stage::Idle(j) | Stage::IdleSink(j) | Stage::IdleStarted(j, _, _) => Some(j),
                _ => None,
            };
            &&& group is None ==> r2.running == r.running
            &&& group is Some && (group->0 >= p.keys.len() || other != p.keys[group->0 as int])
                ==> r2.running.contains_key(other) == r.running.contains_key(other)
                && r2.running[other] == r.running[other]
            &&& device is None ==> r2.idle == r.idle
            &&& device is Some && (device->0 >= p.idle_keys.len() || other
                != p.idle_keys[device->0 as int]) ==> r2.idle.contains_key(other)
                == r.idle.contains_key(other) && r2.idle[other] == r.idle[other]
            &&& r2.sessions == r.sessions
            &&& r2.hold == r.hold
            &&& r2.rearm == r.rearm
            &&& r.retry ==> r2.retry
            &&& p2.desired == p.desired
            &&& p2.keys == p.keys
            &&& p2.idle == p.idle
            &&& p2.idle_keys == p.idle_keys
            &&& p2.fullnames == p.fullnames
            &&& p2.jitters == p.jitters
            &&& p2.default_jitter_ms == p.default_jitter_ms
            &&& p2.rearm == p.rearm
        }),
{
}

/// A step for one part of a group leaves its other parts, its anchor and its port as
/// they were.
pub proof fn law_the_parts_of_a_group_are_apart(p: PassView, r: RecView, i: usize, e: Event)
    requires
        i < p.keys.len(),
        r.running.contains_key(p.keys[i as int]),
    ensures
        ({
            let g = r.running[p.keys[i as int]];
            let after = step(p, r, e).1.running[p.keys[i as int]];
            let sendspin = match p.stage {
                Stage::Steer(k) | Stage::Serving(k) | Stage::Members(k, _) => k == i,
                _ => false,
            };
            let airplay = p.stage == Stage::Ap2(i) || p.stage == Stage::Ap2Started(i);
            let hosts = p.stage == Stage::PwSink(i) || p.stage == Stage::PwSinkStarted(i);
            sendspin || airplay || hosts ==> {
                &&& after.anchor_node_id == g.anchor_node_id
                &&& after.anchor_node_name == g.anchor_node_name
                &&& after.port == g.port
                &&& !sendspin ==> after.server == g.server && after.server_members
                    == g.server_members && after.server_devices == g.server_devices
                    && after.server_codec == g.server_codec && after.server_send_ahead_us
                    == g.server_send_ahead_us && after.force_device_reconnect
                    == g.force_device_reconnect
                &&& !airplay ==> after.ap2_sender == g.ap2_sender && after.ap2_members
                    == g.ap2_members && after.ap2_rate == g.ap2_rate
                &&& !hosts ==> after.pwsink_server == g.pwsink_server && after.pwsink_members
                    == g.pwsink_members && after.pwsink_ports == g.pwsink_ports
            }
        }),
{
}

proof fn lemma_join_contains(s: Seq<ActionView>, t: Seq<ActionView>)
    ensures
        forall|a: ActionView| #[trigger] (s + t).contains(a) <==> s.contains(a) || t.contains(a),
{
    assert forall|a: ActionView| #[trigger] (s + t).contains(a) <==> s.contains(a) || t.contains(
        a,
    ) by {
        if s.contains(a) {
            let i = choose|i: int| 0 <= i < s.len() && s[i] == a;
            assert((s + t)[i] == a);
        }
        if t.contains(a) {
            let i = choose|i: int| 0 <= i < t.len() && t[i] == a;
            assert((s + t)[s.len() + i] == a);
        }
        if (s + t).contains(a) {
            let i = choose|i: int| 0 <= i < (s + t).len() && (s + t)[i] == a;
            if i < s.len() {
                assert(s[i] == a);
            } else {
                assert(t[i - s.len()] == a);
            }
        }
    }
}

/// What belongs to a running group and has to go with it.
pub open spec fn goes_with_group(g: RunningView, a: ActionView) -> bool {
    ||| g.server is Some && a == (ActionView::StopServer { server: g.server->0 })
    ||| g.ap2_sender is Some && a == (ActionView::DropAp2 { sender: g.ap2_sender->0 })
    ||| g.pwsink_server is Some && a == (ActionView::DropPwSink { server: g.pwsink_server->0 })
    ||| a == (ActionView::DestroySink { node_id: g.anchor_node_id })
}

/// What belongs to an idle sender and has to go with it.
pub open spec fn goes_with_idle(s: IdleView, a: ActionView) -> bool {
    ||| a == (ActionView::StopServer { server: s.server })
    ||| a == (ActionView::DestroySink { node_id: s.sink_node_id })
}

/// What belongs to an on-demand session and has to go with it.
pub open spec fn goes_with_session(output: Seq<char>, s: SessionView, a: ActionView) -> bool {
    ||| s.transport is Ap2 && a == (ActionView::DropAp2 { sender: s.transport->Ap2_0 })
    ||| s.transport is PwSink && a == (ActionView::DropPwSink { server: s.transport->server })
    ||| a == (ActionView::ClearRate { output })
    ||| a == (ActionView::DestroySink { node_id: s.sink_node_id })
}

proof fn lemma_end_group(g: RunningView)
    ensures
        forall|a: ActionView| #[trigger] end_group(g).contains(a) <==> goes_with_group(g, a),
{
    let s1 = stop_server(g);
    let s2 = match g.ap2_sender {
        Some(sender) => seq![ActionView::DropAp2 { sender }],
        None => Seq::empty(),
    };
    let s3 = match g.pwsink_server {
        Some(server) => seq![ActionView::DropPwSink { server }],
        None => Seq::empty(),
    };
    let s4 = seq![ActionView::DestroySink { node_id: g.anchor_node_id }];
    lemma_join_contains(s1, s2);
    lemma_join_contains(s1 + s2, s3);
    lemma_join_contains(s1 + s2 + s3, s4);
    assert(end_group(g) == s1 + s2 + s3 + s4);
    assert forall|a: ActionView| #[trigger] end_group(g).contains(a) <==> goes_with_group(g, a) by {
        if g.server is Some {
            assert(s1[0] == (ActionView::StopServer { server: g.server->0 }));
        }
        if g.ap2_sender is Some {
            assert(s2[0] == (ActionView::DropAp2 { sender: g.ap2_sender->0 }));
        }
        if g.pwsink_server is Some {
            assert(s3[0] == (ActionView::DropPwSink { server: g.pwsink_server->0 }));
        }
        assert(s4[0] == (ActionView::DestroySink { node_id: g.anchor_node_id }));
    }
}

proof fn lemma_end_groups(
    keys: Seq<Seq<char>>,
    running: Map<Seq<char>, RunningView>,
    kept: Set<Seq<char>>,
)
    ensures
        forall|a: ActionView| #[trigger]
            end_groups(keys, running, kept).contains(a) <==> exists|i: int|
                0 <= i < keys.len() && !kept.contains(#[trigger] keys[i]) && goes_with_group(
                    running[keys[i]],
                    a,
                ),
    decreases keys.len(),
{
    if keys.len() > 0 {
        let front = keys.drop_last();
        let last = keys.last();
        lemma_end_groups(front, running, kept);
        lemma_end_group(running[last]);
        let before = end_groups(front, running, kept);
        lemma_join_contains(before, end_group(running[last]));
        let all = end_groups(keys, running, kept);
        assert forall|a: ActionView| #[trigger] all.contains(a) <==> exists|i: int|
            0 <= i < keys.len() && !kept.contains(#[trigger] keys[i]) && goes_with_group(
                running[keys[i]],
                a,
            ) by {
            if before.contains(a) {
                let i = choose|i: int|
                    0 <= i < front.len() && !kept.contains(#[trigger] front[i]) && goes_with_group(
                        running[front[i]],
                        a,
                    );
                assert(keys[i] == front[i]);
            }
            if exists|i: int|
                0 <= i < keys.len() && !kept.contains(#[trigger] keys[i]) && goes_with_group(
                    running[keys[i]],
                    a,
                ) {
                let i = choose|i: int|
                    0 <= i < keys.len() && !kept.contains(#[trigger] keys[i]) && goes_with_group(
                        running[keys[i]],
                        a,
                    );
                if i < front.len() {
                    assert(front[i] == keys[i]);
                    assert(before.contains(a));
                } else {
                    assert(end_group(running[last]).contains(a));
                }
            }
            if all.contains(a) && !before.contains(a) {
                assert(keys[keys.len() - 1] == last);
            }
        }
    }
}

proof fn lemma_end_idle(
    keys: Seq<Seq<char>>,
    idle: Map<Seq<char>, IdleView>,
    kept: Set<Seq<char>>,
)
    ensures
        forall|a: ActionView| #[trigger]
            end_idle(keys, idle, kept).contains(a) <==> exists|i: int|
                0 <= i < keys.len() && !kept.contains(#[trigger] keys[i]) && goes_with_idle(
                    idle[keys[i]],
                    a,
                ),
    decreases keys.len(),
{
    if keys.len() > 0 {
        let front = keys.drop_last();
        let last = keys.last();
        lemma_end_idle(front, idle, kept);
        let s = idle[last];
        let ended = seq![
            ActionView::StopServer { server: s.server },
            ActionView::DestroySink { node_id: s.sink_node_id },
        ];
        let before = end_idle(front, idle, kept);
        lemma_join_contains(before, ended);
        assert(ended[0] == (ActionView::StopServer { server: s.server }));
        assert(ended[1] == (ActionView::DestroySink { node_id: s.sink_node_id }));
        let all = end_idle(keys, idle, kept);
        assert forall|a: ActionView| #[trigger] all.contains(a) <==> exists|i: int|
            0 <= i < keys.len() && !kept.contains(#[trigger] keys[i]) && goes_with_idle(
                idle[keys[i]],
                a,
            ) by {
            if before.contains(a) {
                let i = choose|i: int|
                    0 <= i < front.len() && !kept.contains(#[trigger] front[i]) && goes_with_idle(
                        idle[front[i]],
                        a,
                    );
                assert(keys[i] == front[i]);
            }
            if exists|i: int|
                0 <= i < keys.len() && !kept.contains(#[trigger] keys[i]) && goes_with_idle(
                    idle[keys[i]],
                    a,
                ) {
                let i = choose|i: int|
                    0 <= i < keys.len() && !kept.contains(#[trigger] keys[i]) && goes_with_idle(
                        idle[keys[i]],
                        a,
                    );
                if i < front.len() {
                    assert(front[i] == keys[i]);
                    assert(before.contains(a));
                } else {
                    assert(ended.contains(a));
                }
            }
            if all.contains(a) && !before.contains(a) {
                assert(keys[keys.len() - 1] == last);
            }
        }
    }
}

proof fn lemma_ending_sessions(
    keys: Seq<Seq<char>>,
    sessions: Map<Seq<char>, SessionView>,
    ended: spec_fn(Seq<char>) -> bool,
)
    ensures
        forall|a: ActionView| #[trigger]
            end_sessions(keys, sessions, ended).contains(a) <==> exists|i: int|
                0 <= i < keys.len() && ended(#[trigger] keys[i]) && goes_with_session(
                    keys[i],
                    sessions[keys[i]],
                    a,
                ),
    decreases keys.len(),
{
    if keys.len() > 0 {
        let front = keys.drop_last();
        let last = keys.last();
        lemma_ending_sessions(front, sessions, ended);
        let s = sessions[last];
        let todo = crate::reconciler::end_session(last, s);
        let before = end_sessions(front, sessions, ended);
        lemma_join_contains(before, todo);
        assert forall|a: ActionView| #[trigger] todo.contains(a) <==> goes_with_session(
            last,
            s,
            a,
        ) by {
            assert(todo[1] == (ActionView::ClearRate { output: last }));
            assert(todo[2] == (ActionView::DestroySink { node_id: s.sink_node_id }));
            match s.transport {
                SessionTransport::Ap2(sender) => {
                    assert(todo[0] == (ActionView::DropAp2 { sender }));
                },
                SessionTransport::PwSink { server, .. } => {
                    assert(todo[0] == (ActionView::DropPwSink { server }));
                },
            }
        }
        let all = end_sessions(keys, sessions, ended);
        assert forall|a: ActionView| #[trigger] all.contains(a) <==> exists|i: int|
            0 <= i < keys.len() && ended(#[trigger] keys[i]) && goes_with_session(
                keys[i],
                sessions[keys[i]],
                a,
            ) by {
            if before.contains(a) {
                let i = choose|i: int|
                    0 <= i < front.len() && ended(#[trigger] front[i]) && goes_with_session(
                        front[i],
                        sessions[front[i]],
                        a,
                    );
                assert(keys[i] == front[i]);
            }
            if exists|i: int|
                0 <= i < keys.len() && ended(#[trigger] keys[i]) && goes_with_session(
                    keys[i],
                    sessions[keys[i]],
                    a,
                ) {
                let i = choose|i: int|
                    0 <= i < keys.len() && ended(#[trigger] keys[i]) && goes_with_session(
                        keys[i],
                        sessions[keys[i]],
                        a,
                    );
                if i < front.len() {
                    assert(front[i] == keys[i]);
                    assert(before.contains(a));
                } else {
                    assert(todo.contains(a));
                }
            }
            if all.contains(a) && !before.contains(a) {
                assert(keys[keys.len() - 1] == last);
            }
        }
    }
}

/// The group `k` does not run on.
pub open spec fn group_ends(r: RecView, d: Map<Seq<char>, DesiredView>, k: Seq<char>) -> bool {
    r.running.contains_key(k) && !d.contains_key(k)
}

/// The idle sender of `k` does not run on.
pub open spec fn idle_ends(r: RecView, idle: Set<Seq<char>>, k: Seq<char>) -> bool {
    r.idle.contains_key(k) && !idle.contains(k)
}

/// The session to `o` does not run on: a group plays to `o` now, or it cannot be
/// reached any more.
pub open spec fn session_is_over(
    r: RecView,
    d: Map<Seq<char>, DesiredView>,
    ap2: Map<Seq<char>, Ap2Device>,
    hosts: Set<Seq<char>>,
    o: Seq<char>,
) -> bool {
    r.sessions.contains_key(o) && {
        ||| exists|k: Seq<char>, m: int|
            #![trigger d[k].ap2_members[m]]
            d.contains_key(k) && 0 <= m < d[k].ap2_members.len() && d[k].ap2_members[m].0 == o
        ||| exists|k: Seq<char>, m: int|
            #![trigger d[k].pwsink_members[m]]
            d.contains_key(k) && 0 <= m < d[k].pwsink_members.len() && d[k].pwsink_members[m] == o
        ||| AP2_DEV_PREFIX@.is_prefix_of(o) && !(ap2.contains_key(o) && ap2[o].present
            && ap2[o].addr is Some)
        ||| !AP2_DEV_PREFIX@.is_prefix_of(o) && !hosts.contains(o)
    }
}

/// A pass begins by ending exactly what is not wanted any more: a group that is not
/// called for, an idle sender of a device that is not to keep one, and an on-demand
/// session whose output plays in a group or is gone. All that belongs to these ends,
/// nothing that belongs to another does, and everything else runs on as it was.
pub proof fn law_what_is_not_wanted_ends(
    r: RecView,
    d: Map<Seq<char>, DesiredView>,
    idle: Set<Seq<char>>,
    ap2: Map<Seq<char>, Ap2Device>,
    hosts: Set<Seq<char>>,
)
    requires
        r.running.dom().finite(),
        r.idle.dom().finite(),
        r.sessions.dom().finite(),
    ensures
        ({
            let (r2, todo) = tear_down(r, d, idle, ap2, hosts);
            &&& forall|a: ActionView| #[trigger]
                todo.contains(a) <==> {
                    ||| exists|k: Seq<char>|
                        #[trigger] group_ends(r, d, k) && goes_with_group(r.running[k], a)
                    ||| exists|k: Seq<char>|
                        #[trigger] idle_ends(r, idle, k) && goes_with_idle(r.idle[k], a)
                    ||| exists|o: Seq<char>|
                        #[trigger] session_is_over(r, d, ap2, hosts, o) && goes_with_session(
                            o,
                            r.sessions[o],
                            a,
                        )
                }
            &&& forall|k: Seq<char>| #[trigger]
                r2.running.contains_key(k) <==> r.running.contains_key(k) && !group_ends(r, d, k)
            &&& forall|k: Seq<char>| #[trigger]
                r2.running.contains_key(k) ==> r2.running[k] == r.running[k]
            &&& forall|k: Seq<char>| #[trigger]
                r2.idle.contains_key(k) <==> r.idle.contains_key(k) && !idle_ends(r, idle, k)
            &&& forall|k: Seq<char>| #[trigger]
                r2.idle.contains_key(k) ==> r2.idle[k] == r.idle[k]
            &&& forall|o: Seq<char>| #[trigger]
                r2.sessions.contains_key(o) <==> r.sessions.contains_key(o) && !session_is_over(
                    r,
                    d,
                    ap2,
                    hosts,
                    o,
                )
            &&& forall|o: Seq<char>| #[trigger]
                r2.sessions.contains_key(o) ==> r2.sessions[o] == r.sessions[o]
            &&& r2.hold == r.hold
            &&& r2.retry == r.retry
        }),
{
    let (r2, todo) = tear_down(r, d, idle, ap2, hosts);
    let ends = session_ends(d, ap2, hosts);
    let gk = in_order(r.running.dom());
    let ik = in_order(r.idle.dom());
    let sk = in_order(r.sessions.dom());
    lemma_set_in_order(r.running.dom());
    lemma_set_in_order(r.idle.dom());
    lemma_set_in_order(r.sessions.dom());
    lemma_end_groups(gk, r.running, d.dom());
    lemma_end_idle(ik, r.idle, idle);
    lemma_ending_sessions(sk, r.sessions, ends);
    let a1 = end_groups(gk, r.running, d.dom());
    let a2 = end_idle(ik, r.idle, idle);
    let a3 = end_sessions(sk, r.sessions, ends);
    lemma_join_contains(a1, a2);
    lemma_join_contains(a1 + a2, a3);
    assert(todo == a1 + a2 + a3);
    assert forall|k: Seq<char>| #[trigger] gk.contains(k) <==> r.running.contains_key(k) by {
        assert(gk.to_set().contains(k) <==> gk.contains(k));
    }
    assert forall|k: Seq<char>| #[trigger] ik.contains(k) <==> r.idle.contains_key(k) by {
        assert(ik.to_set().contains(k) <==> ik.contains(k));
    }
    assert forall|k: Seq<char>| #[trigger] sk.contains(k) <==> r.sessions.contains_key(k) by {
        assert(sk.to_set().contains(k) <==> sk.contains(k));
    }
    assert forall|o: Seq<char>| r.sessions.contains_key(o) implies #[trigger] ends(o)
        == session_is_over(r, d, ap2, hosts, o) by {
        lemma_dialed_by_a_group(d, o);
    }
    assert forall|a: ActionView| #[trigger] a1.contains(a) <==> exists|k: Seq<char>|
        #[trigger] group_ends(r, d, k) && goes_with_group(r.running[k], a) by {
        if a1.contains(a) {
            let i = choose|i: int|
                0 <= i < gk.len() && !d.dom().contains(#[trigger] gk[i]) && goes_with_group(
                    r.running[gk[i]],
                    a,
                );
            assert(gk.contains(gk[i]));
            assert(group_ends(r, d, gk[i]));
        }
        if exists|k: Seq<char>|
            #[trigger] group_ends(r, d, k) && goes_with_group(r.running[k], a) {
            let k = choose|k: Seq<char>|
                #[trigger] group_ends(r, d, k) && goes_with_group(r.running[k], a);
            assert(gk.contains(k));
            let i = choose|i: int| 0 <= i < gk.len() && gk[i] == k;
            assert(!d.dom().contains(gk[i]));
        }
    }
    assert forall|a: ActionView| #[trigger] a2.contains(a) <==> exists|k: Seq<char>|
        #[trigger] idle_ends(r, idle, k) && goes_with_idle(r.idle[k], a) by {
        if a2.contains(a) {
            let i = choose|i: int|
                0 <= i < ik.len() && !idle.contains(#[trigger] ik[i]) && goes_with_idle(
                    r.idle[ik[i]],
                    a,
                );
            assert(ik.contains(ik[i]));
            assert(idle_ends(r, idle, ik[i]));
        }
        if exists|k: Seq<char>| #[trigger] idle_ends(r, idle, k) && goes_with_idle(r.idle[k], a) {
            let k = choose|k: Seq<char>|
                #[trigger] idle_ends(r, idle, k) && goes_with_idle(r.idle[k], a);
            assert(ik.contains(k));
            let i = choose|i: int| 0 <= i < ik.len() && ik[i] == k;
            assert(!idle.contains(ik[i]));
        }
    }
    assert forall|a: ActionView| #[trigger] a3.contains(a) <==> exists|o: Seq<char>|
        #[trigger] session_is_over(r, d, ap2, hosts, o) && goes_with_session(
            o,
            r.sessions[o],
            a,
        ) by {
        if a3.contains(a) {
            let i = choose|i: int|
                0 <= i < sk.len() && ends(#[trigger] sk[i]) && goes_with_session(
                    sk[i],
                    r.sessions[sk[i]],
                    a,
                );
            assert(sk.contains(sk[i]));
            assert(session_is_over(r, d, ap2, hosts, sk[i]));
        }
        if exists|o: Seq<char>|
            #[trigger] session_is_over(r, d, ap2, hosts, o) && goes_with_session(
                o,
                r.sessions[o],
                a,
            ) {
            let o = choose|o: Seq<char>|
                #[trigger] session_is_over(r, d, ap2, hosts, o) && goes_with_session(
                    o,
                    r.sessions[o],
                    a,
                );
            assert(sk.contains(o));
            let i = choose|i: int| 0 <= i < sk.len() && sk[i] == o;
            assert(ends(sk[i]));
        }
    }
    assert forall|o: Seq<char>| #[trigger] r2.sessions.contains_key(o) <==> r.sessions.contains_key(
        o,
    ) && !session_is_over(r, d, ap2, hosts, o) by {
        if r.sessions.contains_key(o) {
            assert(ends(o) == session_is_over(r, d, ap2, hosts, o));
        }
    }
}

proof fn lemma_dialed_by_a_group(d: Map<Seq<char>, DesiredView>, o: Seq<char>)
    ensures
        grouped_dialed(d).contains(o) <==> ((exists|k: Seq<char>, m: int|
            #![trigger d[k].ap2_members[m]]
            d.contains_key(k) && 0 <= m < d[k].ap2_members.len() && d[k].ap2_members[m].0 == o)
            || (exists|k: Seq<char>, m: int|
            #![trigger d[k].pwsink_members[m]]
            d.contains_key(k) && 0 <= m < d[k].pwsink_members.len() && d[k].pwsink_members[m]
                == o)),
{
    if grouped_dialed(d).contains(o) {
        let k = choose|k: Seq<char>| #[trigger]
            d.contains_key(k) && (receiver_names(d[k].ap2_members).contains(o)
                || d[k].pwsink_members.contains(o));
        if receiver_names(d[k].ap2_members).contains(o) {
            let names = receiver_names(d[k].ap2_members);
            let m = choose|m: int| 0 <= m < names.len() && names[m] == o;
            assert(d[k].ap2_members[m].0 == o);
        } else {
            let m = choose|m: int|
                0 <= m < d[k].pwsink_members.len() && d[k].pwsink_members[m] == o;
            assert(d[k].pwsink_members[m] == o);
        }
    }
    if exists|k: Seq<char>, m: int|
        #![trigger d[k].ap2_members[m]]
        d.contains_key(k) && 0 <= m < d[k].ap2_members.len() && d[k].ap2_members[m].0 == o {
        let (k, m) = choose|k: Seq<char>, m: int|
            #![trigger d[k].ap2_members[m]]
            d.contains_key(k) && 0 <= m < d[k].ap2_members.len() && d[k].ap2_members[m].0 == o;
        assert(receiver_names(d[k].ap2_members)[m] == o);
        assert(d.contains_key(k));
    }
    if exists|k: Seq<char>, m: int|
        #![trigger d[k].pwsink_members[m]]
        d.contains_key(k) && 0 <= m < d[k].pwsink_members.len() && d[k].pwsink_members[m] == o {
        let (k, m) = choose|k: Seq<char>, m: int|
            #![trigger d[k].pwsink_members[m]]
            d.contains_key(k) && 0 <= m < d[k].pwsink_members.len() && d[k].pwsink_members[m] == o;
        assert(d[k].pwsink_members.contains(o));
        assert(d.contains_key(k));
    }
}

/// Every route that a pass sees has its group: the output plays in one that has
/// exactly its sources, is dialed in it as it is known, and is so at the rate, codec
/// and lead that the settings come to.
pub proof fn law_every_route_is_planned(
    d: Map<Seq<char>, DesiredView>,
    intent: Seq<Route>,
    c: Scene,
    source: Seq<char>,
    o: Seq<char>,
) -> (k: Seq<char>)
    requires
        planned(d, intent, c),
        forall|i: int| 0 <= i < intent.len() ==> !(#[trigger] intent[i]).0.contains(KEY_SEP),
        intent.contains((source, o)),
        c.devices.names().contains(o) || (c.ap2_devices.names().contains(o)
            && c.ap2_devices@[o].addr is Some) || c.pwsink_hosts.names().contains(o),
    ensures
        d.contains_key(k),
        forall|s: Seq<char>| #[trigger] d[k].sources.contains(s) <==> intent.contains((s, o)),
        c.devices.names().contains(o) ==> d[k].sendspin_node_names.contains(o),
        c.devices.names().contains(o) && c.devices@[o].url is Some ==> d[k].sendspin_members.contains(
            (c.devices@[o].fullname@, c.devices@[o].url->0@),
        ),
        c.ap2_devices.names().contains(o) && c.ap2_devices@[o].addr is Some
            ==> d[k].ap2_members.contains(
            (
                o,
                (c.ap2_devices@[o].addr->0).0,
                if c.settings.ap2_latencies@.contains_key(o) {
                    Some(c.settings.ap2_latencies@[o])
                } else {
                    None
                },
            ),
        ),
        c.pwsink_hosts.names().contains(o) ==> d[k].pwsink_members.contains(o),
        d[k].sendspin_node_names.len() > 0 ==> d[k].sendspin_codec == codec_for(
            d[k].sendspin_node_names,
            c.devices@,
            c.settings,
        ) && d[k].sendspin_send_ahead_us == lead_for(
            d[k].sendspin_node_names,
            c.devices@,
            c.settings,
        ) as i64,
        d[k].ap2_members.len() > 0 ==> (d[k].ap2_rate == 48_000 <==> forall|i: int|
            0 <= i < d[k].ap2_members.len() ==> c.settings.ap2_full_rate@.contains(
                (#[trigger] d[k].ap2_members[i]).0,
            )),
{
    let k = key_of(intent, o);
    let a = c.devices.names();
    let b = c.ap2_devices.names();
    let h = c.pwsink_hosts.names();
    lemma_routed_key(intent, a, b, h, c.ap2_devices@, source, o);
    assert(d.contains_key(k));
    let x = a.filter(fed_by(intent, k));
    let y = b.filter(reached(intent, k, c.ap2_devices@));
    let z = h.filter(fed_by(intent, k));
    let g = choose|g: DesiredView|
        group_of(g, intent, x, y, z, c.devices@, c.ap2_devices@, c.settings.ap2_latencies@) && d[k]
            == #[trigger] settled(g, c.devices@, c.settings);
    lemma_group_has(
        g,
        intent,
        a,
        b,
        h,
        c.devices@,
        c.ap2_devices@,
        c.settings.ap2_latencies@,
        o,
    );
    k
}

/// A device keeps an idle sender exactly where it is known, was adopted and plays in
/// no group; the sender dials that device, at the codec and the lead that it would
/// get alone.
pub proof fn law_adopted_idle_devices_are_connected(
    c: Scene,
    d: Map<Seq<char>, DesiredView>,
    dev: Seq<char>,
)
    ensures
        ({
            let plans = idle_plans(c, grouped_devices(d));
            &&& plans.contains_key(dev) <==> c.devices@.contains_key(dev) && c.adopted@.contains(
                dev,
            ) && forall|k: Seq<char>| #[trigger]
                d.contains_key(k) ==> !d[k].sendspin_node_names.contains(dev)
            &&& plans.contains_key(dev) ==> {
                &&& plans[dev].fullname == c.devices@[dev].fullname@
                &&& c.devices@[dev].url is Some ==> plans[dev].url == Some(
                    c.devices@[dev].url->0@,
                )
                &&& c.devices@[dev].url is None ==> plans[dev].url is None
                &&& plans[dev].codec == codec_for(seq![dev], c.devices@, c.settings)
                &&& plans[dev].send_ahead_us == lead_for(seq![dev], c.devices@, c.settings) as i64
            }
        }),
{
}

/// Without a hold, a pass sees a route exactly where it is stored and leads to an
/// adopted output.
pub proof fn law_a_pass_sees_every_adopted_route(c: Scene, l: Route)
    ensures
        seen_intent(c, None).contains(l) <==> c.adopted@.contains(l.1) && exists|i: int|
            0 <= i < c.intent@.len() && (#[trigger] c.intent@[i]).source@ == l.0
                && c.intent@[i].output@ == l.1,
{
    law_adoption_gates_routes(routes(c.intent@), c.adopted@, l);
    let all = routes(c.intent@);
    if all.contains(l) {
        let i = choose|i: int| 0 <= i < all.len() && all[i] == l;
        assert(c.intent@[i]@ == l);
        assert(c.intent@[i].source@ == l.0);
    }
    if exists|i: int|
        0 <= i < c.intent@.len() && (#[trigger] c.intent@[i]).source@ == l.0 && c.intent@[i].output@
            == l.1 {
        let i = choose|i: int|
            0 <= i < c.intent@.len() && (#[trigger] c.intent@[i]).source@ == l.0
                && c.intent@[i].output@ == l.1;
        assert(all[i] == c.intent@[i]@);
        assert(all[i] == l);
    }
}

proof fn lemma_renewed(
    fullnames: Map<Seq<char>, Seq<char>>,
    members: Seq<Route>,
    devices: Seq<Seq<char>>,
    n: int,
    f: Seq<char>,
)
    requires
        0 <= n <= devices.len(),
    ensures
        renewed(fullnames, members, devices, n).contains(f) <==> exists|k: int|
            0 <= k < n && fullnames.contains_key(#[trigger] devices[k]) && fullnames[devices[k]]
                == f && dials_name(members, f),
    decreases n,
{
    if n > 0 {
        lemma_renewed(fullnames, members, devices, n - 1, f);
        let rest = renewed(fullnames, members, devices, n - 1);
        let dev = devices[n - 1];
        lemma_push_contains(rest, fullnames[dev]);
        if rest.contains(f) {
            let k = choose|k: int|
                0 <= k < n - 1 && fullnames.contains_key(#[trigger] devices[k])
                    && fullnames[devices[k]] == f && dials_name(members, f);
            assert(0 <= k < n);
        }
        if exists|k: int|
            0 <= k < n && fullnames.contains_key(#[trigger] devices[k]) && fullnames[devices[k]] == f
                && dials_name(members, f) {
            let k = choose|k: int|
                0 <= k < n && fullnames.contains_key(#[trigger] devices[k]) && fullnames[devices[k]]
                    == f && dials_name(members, f);
            assert(k < n - 1 || k == n - 1);
        }
    }
}

/// Some marked device has this instance name.
pub open spec fn is_marked(
    fullnames: Map<Seq<char>, Seq<char>>,
    marked: Set<Seq<char>>,
    f: Seq<char>,
) -> bool {
    exists|dev: Seq<char>|
        #[trigger] marked.contains(dev) && fullnames.contains_key(dev) && fullnames[dev] == f
}

/// Every marked device that a running server plays to is ended, is no longer noted as a
/// member, and another pass, which dials it anew, is wanted; the marks are gone. A
/// called-for member that is not marked stays a member.
pub proof fn law_marked_devices_are_dialed_anew(
    p: PassView,
    r: RecView,
    i: usize,
    restarted: bool,
    e: Event,
    k: int,
)
    requires
        p.stage == Stage::Members(i, restarted),
        i < p.keys.len(),
        r.running.contains_key(p.keys[i as int]),
        r.running[p.keys[i as int]].server is Some,
        r.running[p.keys[i as int]].force_device_reconnect.finite(),
        0 <= k < p.desired[p.keys[i as int]].sendspin_members.len(),
    ensures
        ({
            let key = p.keys[i as int];
            let g = r.running[key];
            let m = p.desired[key].sendspin_members[k];
            let (p2, r2, todo) = step(p, r, e);
            let after = r2.running[key];
            &&& after.force_device_reconnect == Set::<Seq<char>>::empty()
            &&& after.server == g.server
            &&& is_marked(p.fullnames, g.force_device_reconnect, m.0) ==> {
                &&& todo.contains(
                    ActionView::StopDevice { server: g.server->0, fullname: m.0 },
                )
                &&& r2.retry
                &&& forall|j: int|
                    0 <= j < after.server_members.len() ==> (#[trigger] after.server_members[j]).0
                        != m.0
            }
            &&& !is_marked(p.fullnames, g.force_device_reconnect, m.0)
                ==> after.server_members.contains(m)
        }),
{
    let key = p.keys[i as int];
    let d = p.desired[key];
    let g = r.running[key];
    let m = d.sendspin_members[k];
    let forced = in_order(g.force_device_reconnect);
    lemma_set_in_order(g.force_device_reconnect);
    let n = forced.len() as int;
    let gone = renewed(p.fullnames, d.sendspin_members, forced, n);
    lemma_renewed(p.fullnames, d.sendspin_members, forced, n, m.0);
    assert(dials_name(d.sendspin_members, m.0));
    assert forall|x: Seq<char>| #[trigger] forced.contains(x)
        <==> g.force_device_reconnect.contains(x) by {
        assert(forced.to_set().contains(x) <==> forced.contains(x));
    }
    assert(gone.contains(m.0) <==> is_marked(p.fullnames, g.force_device_reconnect, m.0)) by {
        if gone.contains(m.0) {
            let j = choose|j: int|
                0 <= j < n && p.fullnames.contains_key(#[trigger] forced[j])
                    && p.fullnames[forced[j]] == m.0 && dials_name(d.sendspin_members, m.0);
            assert(forced.contains(forced[j]));
            assert(g.force_device_reconnect.contains(forced[j]));
        }
        if is_marked(p.fullnames, g.force_device_reconnect, m.0) {
            let dev = choose|dev: Seq<char>|
                #[trigger] g.force_device_reconnect.contains(dev) && p.fullnames.contains_key(dev)
                    && p.fullnames[dev] == m.0;
            assert(forced.contains(dev));
            let j = choose|j: int| 0 <= j < n && forced[j] == dev;
            assert(p.fullnames.contains_key(forced[j]));
        }
    }
    let keep = |x: Route| !gone.contains(x.0);
    let (p2, r2, todo) = step(p, r, e);
    let after = r2.running[key];
    assert(after.server_members == d.sendspin_members.filter(keep));
    if gone.contains(m.0) {
        let j = choose|j: int| 0 <= j < gone.len() && gone[j] == m.0;
        let stops = stop_each(g, gone);
        assert(stops[j] == (ActionView::StopDevice { server: g.server->0, fullname: m.0 }));
        lemma_join_contains(member_changes(d, g, restarted), stops);
        assert(stops.contains(ActionView::StopDevice { server: g.server->0, fullname: m.0 }));
        assert forall|j: int| 0 <= j < after.server_members.len() implies (
        #[trigger] after.server_members[j]).0 != m.0 by {
            let x = after.server_members[j];
            assert(after.server_members.contains(x));
            lemma_filter_contains(d.sendspin_members, keep, x);
        }
    } else {
        assert(d.sendspin_members.contains(m));
        lemma_filter_contains(d.sendspin_members, keep, m);
    }
}

/// A group's server is called after the devices it plays to, an idle sender's after
/// its device; and the sink of an idle sender is named after it too.
pub proof fn law_servers_are_called_after_their_devices(
    p: PassView,
    r: RecView,
    j: usize,
    id: u32,
    rest: Seq<char>,
)
    requires
        j < p.idle_keys.len(),
        p.idle_keys[j as int] == SENDSPIN_DEV_PREFIX@ + rest,
    ensures
        p.stage == Stage::Idle(j) && !r.idle.contains_key(p.idle_keys[j as int]) ==> step(
            p,
            r,
            Event::Done,
        ).2[0] == (ActionView::CreateSink { node_name: "idle-dev-"@ + rest }),
        p.stage == Stage::IdleSink(j) && p.idle[p.idle_keys[j as int]].url is Some ==> {
            let started = step(p, r, Event::Node(Some(id))).2[0];
            &&& started->sink_node_name == "idle-dev-"@ + rest
            &&& started->display == "idle: "@ + display_name(p.idle_keys[j as int])
        },
{
    let dev = p.idle_keys[j as int];
    assert(SENDSPIN_DEV_PREFIX@ =~= dev.subrange(0, SENDSPIN_DEV_PREFIX@.len() as int));
    assert(SENDSPIN_DEV_PREFIX@.is_prefix_of(dev));
    assert(dev.skip(SENDSPIN_DEV_PREFIX@.len() as int) =~= rest);
}

} // verus!
