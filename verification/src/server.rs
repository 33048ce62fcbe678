//! What a sendspin server keeps of its clients, and what it does about what they say.
//!
//! The connections themselves are held elsewhere. Here is decided which output a
//! client stands for, what its messages change, and whose stream ends when a device
//! or the whole server is taken away.

use crate::devices::SendspinDevice;
use crate::maps::{in_order, lemma_in_order, NameMap, NameSet};
use crate::membership::Membership;
use crate::names::{device_node_name, slug, SENDSPIN_DEV_PREFIX};
use crate::sendspin::{format_views, formats_are_news, formats_noted, is_node_of, record_timing_request, report_format_support, resolve_node_name, AudioFormatSpec};
use crate::text::{lex_lt, same, views};
use vstd::prelude::*;

verus! {

/// The state a device says it is in.
#[derive(Clone, Copy, Debug, PartialEq, Eq, Structural)]
pub enum SyncState {
    /// It is ready to play.
    Synchronized,
    /// Its output is in use elsewhere.
    ExternalSource,
}

/// What a device says of itself as a player.
#[derive(Clone, Copy, Debug, PartialEq, Eq, Structural)]
pub struct PlayerReport {
    pub volume: Option<u8>,
    pub muted: Option<bool>,
    pub min_buffer_ms: Option<u32>,
    pub required_lead_time_ms: Option<u32>,
}

/// A message of a device.
#[derive(Clone, Copy, Debug, PartialEq, Eq, Structural)]
pub enum ClientMessage {
    /// Its state, which it reports when it has settled and whenever that changes.
    State { sync: Option<SyncState>, player: Option<PlayerReport> },
    /// Anything else.
    Other,
}

/// The volume and mute in a message.
pub open spec fn player_state(m: ClientMessage) -> Option<(Option<u8>, Option<bool>)> {
    match m {
        ClientMessage::State { sync, player: Some(p) } => Some((p.volume, p.muted)),
        _ => None,
    }
}

/// The volume and mute a message reports, either of which may be missing.
pub fn reported_player_state(m: ClientMessage) -> (r: Option<(Option<u8>, Option<bool>)>)
    ensures
        r == player_state(m),
{
    match m {
        ClientMessage::State { sync: _, player: Some(p) } => Some((p.volume, p.muted)),
        _ => None,
    }
}

/// The state in a message.
pub open spec fn client_state(m: ClientMessage) -> Option<Option<SyncState>> {
    match m {
        ClientMessage::State { sync, player } => Some(sync),
        ClientMessage::Other => None,
    }
}

/// The state a message reports, where it is a report: the first one is what a device
/// may be streamed to from.
pub fn reported_client_state(m: ClientMessage) -> (r: Option<Option<SyncState>>)
    ensures
        r == client_state(m),
{
    match m {
        ClientMessage::State { sync, player: _ } => Some(sync),
        ClientMessage::Other => None,
    }
}

/// The buffering in a message.
pub open spec fn timing(m: ClientMessage) -> Option<(Option<u32>, Option<u32>)> {
    match m {
        ClientMessage::State { sync, player: Some(p) } => if p.min_buffer_ms is Some
            || p.required_lead_time_ms is Some {
            Some((p.min_buffer_ms, p.required_lead_time_ms))
        } else {
            None
        },
        _ => None,
    }
}

/// The buffering a message asks for, where it asks for any.
pub fn reported_timing(m: ClientMessage) -> (r: Option<(Option<u32>, Option<u32>)>)
    ensures
        r == timing(m),
{
    match m {
        ClientMessage::State { sync: _, player: Some(p) } => if p.min_buffer_ms.is_some()
            || p.required_lead_time_ms.is_some() {
            Some((p.min_buffer_ms, p.required_lead_time_ms))
        } else {
            None
        },
        _ => None,
    }
}

// ---- effects ---------------------------------------------------------------------------

/// What is to be done about an event.
pub enum ServerEffect {
    /// Look at all groups again.
    Reconcile,
    /// Let a client's connection control its output.
    Register { node: String },
    /// Note the volume a device has.
    Volume { node: String, volume: u8 },
    /// Note whether a device is muted.
    Mute { node: String, muted: bool },
    /// Its connection controls its output no longer.
    Unregister { node: String },
}

/// The model of a [`ServerEffect`].
pub ghost enum EffectView {
    Reconcile,
    Register { node: Seq<char> },
    Volume { node: Seq<char>, volume: u8 },
    Mute { node: Seq<char>, muted: bool },
    Unregister { node: Seq<char> },
}

impl ServerEffect {
    pub open spec fn view(&self) -> EffectView {
        match self {
            ServerEffect::Reconcile => EffectView::Reconcile,
            ServerEffect::Register { node } => EffectView::Register { node: node@ },
            ServerEffect::Volume { node, volume } => EffectView::Volume {
                node: node@,
                volume: *volume,
            },
            ServerEffect::Mute { node, muted } => EffectView::Mute { node: node@, muted: *muted },
            ServerEffect::Unregister { node } => EffectView::Unregister { node: node@ },
        }
    }
}

/// The models of effects.
pub open spec fn effects(s: Seq<ServerEffect>) -> Seq<EffectView> {
    s.map_values(|e: ServerEffect| e@)
}

fn emit(out: &mut Vec<ServerEffect>, e: ServerEffect)
    ensures
        effects(final(out)@) == effects(old(out)@).push(e@),
{
    out.push(e);
    assert(effects(out@) =~= effects(old(out)@).push(e@));
}

fn nothing() -> (r: Vec<ServerEffect>)
    ensures
        effects(r@) == Seq::<EffectView>::empty(),
{
    let r: Vec<ServerEffect> = Vec::new();
    assert(effects(r@) =~= Seq::<EffectView>::empty());
    r
}

/// What a reported volume and mute come to.
pub open spec fn level_effects(
    node: Option<Seq<char>>,
    state: Option<(Option<u8>, Option<bool>)>,
) -> Seq<EffectView> {
    if node is Some && state is Some {
        (match (state->0).0 {
            Some(volume) => seq![EffectView::Volume { node: node->0, volume }],
            None => Seq::empty(),
        }) + (match (state->0).1 {
            Some(muted) => seq![EffectView::Mute { node: node->0, muted }],
            None => Seq::empty(),
        })
    } else {
        Seq::empty()
    }
}

fn apply_reported_state(
    out: &mut Vec<ServerEffect>,
    node: &str,
    volume: Option<u8>,
    muted: Option<bool>,
)
    ensures
        effects(final(out)@) == effects(old(out)@) + level_effects(
            Some(node@),
            Some((volume, muted)),
        ),
{
    match volume {
        Some(v) => {
            emit(out, ServerEffect::Volume { node: String::from_str(node), volume: v });
        },
        None => {},
    }
    match muted {
        Some(m) => {
            emit(out, ServerEffect::Mute { node: String::from_str(node), muted: m });
        },
        None => {},
    }
    assert(effects(out@) =~= effects(old(out)@) + level_effects(
        Some(node@),
        Some((volume, muted)),
    ));
}

// ---- clients ---------------------------------------------------------------------------

/// How a client came to be connected.
pub enum Origin {
    /// The server dialed the device with this instance name.
    Dialed { fullname: String },
    /// The device dialed in, and calls itself this.
    Accepted { name: String },
}

/// `node` is the output of a client that came this way.
pub open spec fn is_node_for(
    node: Seq<char>,
    devices: Map<Seq<char>, SendspinDevice>,
    origin: Origin,
) -> bool {
    match origin {
        Origin::Dialed { fullname } => is_node_of(node, devices, fullname@),
        Origin::Accepted { name } => node == SENDSPIN_DEV_PREFIX@ + slug(name@),
    }
}

/// The connection a message came over: one the server dialed, or one that was
/// accepted for this output.
pub enum Connection {
    Dialed,
    Accepted { node: String },
}

/// The output that a message is about.
pub open spec fn node_behind(m: Membership, client: Seq<char>, c: Connection) -> Option<Seq<char>> {
    match c {
        Connection::Accepted { node } => Some(node@),
        Connection::Dialed => if m.pending@.contains_key(client) {
            Some(m.pending@[client].node@)
        } else {
            None
        },
    }
}

/// The first client of an output.
pub open spec fn is_first_client(m: Membership, node: Seq<char>, client: Seq<char>) -> bool {
    &&& m.pending@.contains_key(client)
    &&& m.pending@[client].node@ == node
    &&& forall|k: Seq<char>| #[trigger]
        m.pending@.contains_key(k) && m.pending@[k].node@ == node ==> k == client || lex_lt(
            client,
            k,
        )
}

/// An output has no client.
pub open spec fn has_no_client(m: Membership, node: Seq<char>) -> bool {
    forall|k: Seq<char>| #[trigger] m.pending@.contains_key(k) ==> m.pending@[k].node@ != node
}

impl Membership {
    /// A client connected. It is parked until it may be streamed to; what it decodes
    /// is noted, and where that is news the groups are looked at again.
    pub fn join(
        &mut self,
        devices: &mut NameMap<SendspinDevice>,
        client_id: &str,
        origin: &Origin,
        formats: Option<&Vec<AudioFormatSpec>>,
        now: u64,
    ) -> (r: (String, Vec<ServerEffect>))
        ensures
            is_node_for(r.0@, old(devices)@, *origin),
            formats_noted(old(devices)@, final(devices)@, r.0@, format_views(formats)),
            effects(r.1@) == (if formats_are_news(old(devices)@, r.0@, format_views(formats)) {
                seq![EffectView::Reconcile]
            } else {
                Seq::empty()
            }).push(EffectView::Register { node: r.0@ }),
            final(self).pending@.dom() == old(self).pending@.dom().insert(client_id@),
            final(self).pending@[client_id@].node@ == r.0@,
            final(self).pending@[client_id@].since == now,
            forall|k: Seq<char>|
                k != client_id@ && #[trigger] old(self).pending@.contains_key(k)
                    ==> final(self).pending@[k] == old(self).pending@[k],
            final(self).ready@ == old(self).ready@.remove(client_id@),
            final(self).grouped@ == old(self).grouped@.remove(client_id@),
            final(self).finished_at@ == old(self).finished_at@,
    {
        let node = match origin {
            Origin::Dialed { fullname } => resolve_node_name(devices, fullname),
            Origin::Accepted { name } => device_node_name(name),
        };
        let mut out = nothing();
        if report_format_support(devices, &node, formats) {
            emit(&mut out, ServerEffect::Reconcile);
        }
        emit(&mut out, ServerEffect::Register { node: node.clone() });
        proof {
            assert(effects(out@) =~= (if formats_are_news(
                old(devices)@,
                node@,
                format_views(formats),
            ) {
                seq![EffectView::Reconcile]
            } else {
                Seq::empty()
            }).push(EffectView::Register { node: node@ }));
        }
        self.connected(client_id, node.clone(), now);
        assert(self.pending@.dom() =~= old(self).pending@.dom().insert(client_id@));
        (node, out)
    }

    fn behind(&self, client_id: &str, connection: &Connection) -> (r: Option<String>)
        ensures
            crate::text::opt_view(r) == node_behind(*self, client_id@, *connection),
    {
        match connection {
            Connection::Accepted { node } => Some(node.clone()),
            Connection::Dialed => match self.pending.get(client_id) {
                Some(p) => Some(p.node.clone()),
                None => None,
            },
        }
    }

    /// A client said something: the volume and mute it reports are noted, its first
    /// report makes it ready to be streamed to, and where the buffering it asks for
    /// is news the groups are looked at again.
    pub fn message(
        &mut self,
        devices: &mut NameMap<SendspinDevice>,
        client_id: &str,
        connection: &Connection,
        m: ClientMessage,
    ) -> (r: Vec<ServerEffect>)
        ensures
            ({
                let node = node_behind(*old(self), client_id@, *connection);
                let asks = node is Some && timing(m) is Some && old(devices)@.contains_key(node->0);
                let was = old(devices)@[node->0];
                let wants = timing(m)->0;
                &&& effects(r@) == level_effects(node, player_state(m)) + if asks && (
                was.min_buffer_ms != wants.0 || was.required_lead_time_ms != wants.1) {
                    seq![EffectView::Reconcile]
                } else {
                    Seq::empty()
                }
                &&& final(devices)@ == if asks {
                    old(devices)@.insert(
                        node->0,
                        SendspinDevice {
                            min_buffer_ms: wants.0,
                            required_lead_time_ms: wants.1,
                            ..was
                        },
                    )
                } else {
                    old(devices)@
                }
            }),
            final(self).ready@ == if client_state(m) is Some {
                old(self).ready@.insert(client_id@)
            } else {
                old(self).ready@
            },
            final(self).pending@ == old(self).pending@,
            final(self).grouped@ == old(self).grouped@,
            final(self).finished_at@ == old(self).finished_at@,
    {
        let node = self.behind(client_id, connection);
        let ghost behind = node_behind(*self, client_id@, *connection);
        let mut out = nothing();
        match (reported_player_state(m), &node) {
            (Some(s), Some(n)) => {
                apply_reported_state(&mut out, n, s.0, s.1);
            },
            _ => {},
        }
        assert(effects(out@) =~= level_effects(behind, player_state(m)));
        if reported_client_state(m).is_some() {
            self.reported(client_id);
        }
        match (reported_timing(m), &node) {
            (Some(t), Some(n)) => {
                if record_timing_request(devices, n, t.0, t.1) {
                    emit(&mut out, ServerEffect::Reconcile);
                    assert(effects(out@) =~= level_effects(behind, player_state(m)) + seq![
                        EffectView::Reconcile,
                    ]);
                } else {
                    assert(effects(out@) =~= level_effects(behind, player_state(m))
                        + Seq::<EffectView>::empty());
                }
            },
            _ => {
                assert(effects(out@) =~= level_effects(behind, player_state(m)) + Seq::<
                    EffectView,
                >::empty());
            },
        }
        out
    }

    /// A connection closed: nothing is kept of its client.
    pub fn leave(&mut self, client_id: &str, connection: &Connection) -> (r: Vec<ServerEffect>)
        ensures
            effects(r@) == match node_behind(*old(self), client_id@, *connection) {
                Some(node) => seq![EffectView::Unregister { node }],
                None => Seq::empty(),
            },
            final(self).pending@ == old(self).pending@.remove(client_id@),
            final(self).ready@ == old(self).ready@.remove(client_id@),
            final(self).grouped@ == old(self).grouped@.remove(client_id@),
            final(self).finished_at@ == old(self).finished_at@,
    {
        let node = self.behind(client_id, connection);
        self.disconnected(client_id);
        let mut out = nothing();
        match node {
            Some(node) => {
                let ghost n = node@;
                emit(&mut out, ServerEffect::Unregister { node });
                assert(effects(out@) =~= seq![EffectView::Unregister { node: n }]);
            },
            None => {},
        }
        out
    }

    fn client_on(&self, node: &str) -> (r: Option<String>)
        ensures
            match r {
                Some(id) => is_first_client(*self, node@, id@),
                None => has_no_client(*self, node@),
            },
    {
        let n: usize = self.pending.len();
        let ghost names = self.pending.names();
        let mut i: usize = 0;
        while i < n
            invariant
                n == names.len(),
                names == self.pending.names(),
                crate::maps::sorted_names(names),
                forall|k: Seq<char>| #[trigger]
                    self.pending@.contains_key(k) <==> names.contains(k),
                i <= n,
                forall|j: int| 0 <= j < i ==> self.pending@[#[trigger] names[j]].node@ != node@,
            decreases n - i,
        {
            let id = self.pending.key_at(i);
            if same(&self.pending.value_at(i).node, node) {
                proof {
                    assert(names.contains(id@));
                    assert forall|k: Seq<char>| #[trigger]
                        self.pending@.contains_key(k) && self.pending@[k].node@
                            == node@ implies k == id@ || lex_lt(id@, k) by {
                        assert(names.contains(k));
                        let m = choose|m: int| 0 <= m < names.len() && names[m] == k;
                        if m > i {
                            assert(lex_lt(names[i as int], names[m]));
                        }
                    }
                }
                return Some(id.clone());
            }
            i += 1;
        }
        proof {
            assert forall|k: Seq<char>| #[trigger]
                self.pending@.contains_key(k) implies self.pending@[k].node@ != node@ by {
                assert(names.contains(k));
                let m = choose|m: int| 0 <= m < names.len() && names[m] == k;
                assert(self.pending@[names[m]].node@ != node@);
            }
        }
        None
    }

    /// A device leaves by itself: its client is taken out of its group at once, and
    /// is given back where it was in one, so that it can be told that its stream
    /// ended. Nobody else is touched.
    pub fn stop_device(&mut self, devices: &NameMap<SendspinDevice>, fullname: &str) -> (r: Option<
        String,
    >)
        ensures
            exists|node: Seq<char>| #[trigger]
                is_node_of(node, devices@, fullname@) && match r {
                    Some(id) => is_first_client(*old(self), node, id@) && old(
                        self).grouped@.contains(id@) && final(self).grouped@ == old(
                        self).grouped@.remove(id@),
                    None => final(self).grouped@ == old(self).grouped@ && (has_no_client(
                        *old(self),
                        node,
                    ) || exists|k: Seq<char>| #[trigger]
                        is_first_client(*old(self), node, k) && !old(self).grouped@.contains(k)),
                },
            final(self).pending@ == old(self).pending@,
            final(self).ready@ == old(self).ready@,
            final(self).finished_at@ == old(self).finished_at@,
    {
        let node = resolve_node_name(devices, fullname);
        assert(is_node_of(node@, devices@, fullname@));
        match self.client_on(&node) {
            Some(id) => if self.grouped.remove(&id) {
                Some(id)
            } else {
                assert(is_first_client(*old(self), node@, id@));
                assert(self.grouped@ =~= old(self).grouped@);
                None
            },
            None => None,
        }
    }

    /// The server is taken away: every client is taken out of its group, and those
    /// that were in one are given back in order, so that they can be told that their
    /// stream ended.
    pub fn shutdown(&mut self) -> (r: Vec<String>)
        ensures
            views(r@) == in_order(old(self).grouped@),
            final(self).grouped@ == Set::<Seq<char>>::empty(),
            final(self).pending@ == old(self).pending@,
            final(self).ready@ == old(self).ready@,
            final(self).finished_at@ == old(self).finished_at@,
    {
        let r = self.grouped.to_vec();
        proof {
            lemma_in_order(views(r@));
            assert(views(r@).to_set() =~= self.grouped@);
        }
        self.grouped = NameSet::new();
        r
    }
}

/// A device that reports its volume or its mute has exactly that noted for the output
/// behind it: nothing that it did not say, and nothing for a client without an output.
pub proof fn law_reported_levels_are_noted(
    node: Option<Seq<char>>,
    sync: Option<SyncState>,
    p: PlayerReport,
)
    ensures
        ({
            let todo = level_effects(node, player_state(ClientMessage::State { sync, player: Some(p) }));
            &&& node is None ==> todo.len() == 0
            &&& node is Some ==> {
                &&& todo.len() == (if p.volume is Some {
                    1int
                } else {
                    0
                }) + (if p.muted is Some {
                    1int
                } else {
                    0
                })
                &&& p.volume matches Some(v) ==> todo.first() == (EffectView::Volume {
                    node: node->0,
                    volume: v,
                })
                &&& p.muted matches Some(m) ==> todo.last() == (EffectView::Mute {
                    node: node->0,
                    muted: m,
                })
            }
            &&& level_effects(node, player_state(ClientMessage::State { sync, player: None })).len()
                == 0
            &&& level_effects(node, player_state(ClientMessage::Other)).len() == 0
        }),
{
}

/// A device asks for buffering where it names a buffer or a lead, and then with
/// exactly what it names.
pub proof fn law_named_buffering_is_asked_for(sync: Option<SyncState>, p: PlayerReport)
    ensures
        ({
            let asked = timing(ClientMessage::State { sync, player: Some(p) });
            &&& asked is Some <==> p.min_buffer_ms is Some || p.required_lead_time_ms is Some
            &&& asked is Some ==> asked == Some((p.min_buffer_ms, p.required_lead_time_ms))
            &&& timing(ClientMessage::State { sync, player: None }) is None
            &&& timing(ClientMessage::Other) is None
        }),
{
}

/// A message is about the output that its connection stands for: the one it was
/// accepted for, or the one its client was dialed as.
pub proof fn law_a_message_is_about_its_own_output(m: Membership, client: Seq<char>, node: String)
    ensures
        node_behind(m, client, Connection::Accepted { node }) == Some(node@),
        m.pending@.contains_key(client) ==> node_behind(m, client, Connection::Dialed) == Some(
            m.pending@[client].node@,
        ),
        !m.pending@.contains_key(client) ==> node_behind(m, client, Connection::Dialed) is None,
{
}

/// Any report of its state, whatever it holds, is what a device is streamed to from;
/// nothing else is.
pub proof fn law_any_report_counts_as_one(sync: Option<SyncState>, player: Option<PlayerReport>)
    ensures
        client_state(ClientMessage::State { sync, player }) == Some(sync),
        client_state(ClientMessage::Other) is None,
{
}

/// A device that dials in is the output that its name is spelled as.
pub proof fn law_devices_that_dial_in_are_known_by_name(
    node: Seq<char>,
    devices: Map<Seq<char>, SendspinDevice>,
    name: String,
)
    ensures
        is_node_for(node, devices, Origin::Accepted { name }) <==> node == SENDSPIN_DEV_PREFIX@
            + slug(name@),
{
}

} // verus!
