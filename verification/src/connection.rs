//! The course of one agent's connection.
//!
//! It begins with a hello. Until a person has approved the host, nothing that it says is
//! acted on; afterwards its reports count, and it is pinged. [`connection_next`] takes
//! what happened and gives what is to be done, in order.

use crate::agents::{identity_for, identity_of, AgentMsg, ClaimView, HelloOutcome, OutcomeView};
use crate::text::opt_view;
use vstd::prelude::*;

verus! {

/// What a frame holds.
pub enum Incoming {
    /// A message of the protocol.
    Message(AgentMsg),
    /// The other side closes.
    Close,
    /// Text that is no message, and frames that are no text.
    Other,
}

/// What may happen to a connection.
pub enum ConnEvent {
    Frame(Incoming),
    /// It broke off.
    Gone,
    /// What a hello came to.
    Answer(HelloOutcome),
    /// The timer ran out.
    PingDue,
    /// A ping could not be queued.
    PingLost,
}

/// The model of a [`ConnEvent`].
pub ghost enum ConnEventView {
    Message(AgentMsg),
    Close,
    Other,
    Gone,
    Answer(OutcomeView),
    PingDue,
    PingLost,
}

impl ConnEvent {
    pub open spec fn view(&self) -> ConnEventView {
        match *self {
            ConnEvent::Frame(Incoming::Message(msg)) => ConnEventView::Message(msg),
            ConnEvent::Frame(Incoming::Close) => ConnEventView::Close,
            ConnEvent::Frame(Incoming::Other) => ConnEventView::Other,
            ConnEvent::Gone => ConnEventView::Gone,
            ConnEvent::Answer(outcome) => ConnEventView::Answer(outcome@),
            ConnEvent::PingDue => ConnEventView::PingDue,
            ConnEvent::PingLost => ConnEventView::PingLost,
        }
    }
}

/// Where a connection is.
pub enum ConnState {
    /// Nothing was heard yet.
    Fresh,
    /// The registry was asked about a hello.
    Asked { identity: String },
    /// The host waits for approval.
    Waiting { identity: String },
    /// The host is approved.
    Serving { node_name: String },
    Closed,
}

/// The model of a [`ConnState`].
pub ghost enum ConnStateView {
    Fresh,
    Asked { identity: Seq<char> },
    Waiting { identity: Seq<char> },
    Serving { node_name: Seq<char> },
    Closed,
}

impl ConnState {
    pub open spec fn view(&self) -> ConnStateView {
        match *self {
            ConnState::Fresh => ConnStateView::Fresh,
            ConnState::Asked { identity } => ConnStateView::Asked { identity: identity@ },
            ConnState::Waiting { identity } => ConnStateView::Waiting { identity: identity@ },
            ConnState::Serving { node_name } => ConnStateView::Serving { node_name: node_name@ },
            ConnState::Closed => ConnStateView::Closed,
        }
    }
}

/// What is to be done about an event.
pub enum ConnAction {
    /// Ask the registry about a hello. Comes to [`ConnEvent::Answer`].
    Ask {
        protocol: u32,
        agent_version: String,
        machine_id: String,
        hostname: String,
        user: String,
        token: Option<String>,
        pair_code: Option<String>,
    },
    /// Queue a denial.
    Deny { reason: String },
    /// Give what is queued a moment to go out.
    Flush,
    /// Queue a welcome with the delay that the host is to run at.
    Welcome { node_name: String, label: String },
    /// Hand a message to the registry.
    Hear { node_name: String, msg: AgentMsg },
    /// Queue a ping. Comes to [`ConnEvent::PingLost`] where that fails.
    Ping,
    /// Drop the host's request from the registry, and tell listeners.
    Forget { identity: String },
    /// Tell the registry that the host is gone.
    Disconnect { node_name: String },
}

/// The model of a [`ConnAction`].
pub ghost enum ConnActionView {
    Ask { claim: ClaimView, agent_version: Seq<char> },
    Deny { reason: Seq<char> },
    Flush,
    Welcome { node_name: Seq<char>, label: Seq<char> },
    Hear { node_name: Seq<char>, msg: AgentMsg },
    Ping,
    Forget { identity: Seq<char> },
    Disconnect { node_name: Seq<char> },
}

impl ConnAction {
    pub open spec fn view(&self) -> ConnActionView {
        match *self {
            ConnAction::Ask {
                protocol,
                agent_version,
                machine_id,
                hostname,
                user,
                token,
                pair_code,
            } => ConnActionView::Ask {
                claim: ClaimView {
                    protocol,
                    machine_id: machine_id@,
                    hostname: hostname@,
                    user: user@,
                    token: opt_view(token),
                    pair_code: opt_view(pair_code),
                },
                agent_version: agent_version@,
            },
            ConnAction::Deny { reason } => ConnActionView::Deny { reason: reason@ },
            ConnAction::Flush => ConnActionView::Flush,
            ConnAction::Welcome { node_name, label } => ConnActionView::Welcome {
                node_name: node_name@,
                label: label@,
            },
            ConnAction::Hear { node_name, msg } => ConnActionView::Hear { node_name: node_name@, msg },
            ConnAction::Ping => ConnActionView::Ping,
            ConnAction::Forget { identity } => ConnActionView::Forget { identity: identity@ },
            ConnAction::Disconnect { node_name } => ConnActionView::Disconnect {
                node_name: node_name@,
            },
        }
    }
}

/// The models of actions.
pub open spec fn conn_acts(s: Seq<ConnAction>) -> Seq<ConnActionView> {
    s.map_values(|a: ConnAction| a@)
}

/// What a first message leads to: a hello is asked about, anything else is denied.
pub open spec fn first_step(msg: Option<AgentMsg>) -> (ConnStateView, Seq<ConnActionView>) {
    match msg {
        Some(
            AgentMsg::Hello {
                protocol,
                agent_version,
                machine_id,
                hostname,
                user,
                token,
                pair_code,
            },
        ) => (
            ConnStateView::Asked { identity: identity_of(machine_id@, user@) },
            seq![
                ConnActionView::Ask {
                    claim: ClaimView {
                        protocol,
                        machine_id: machine_id@,
                        hostname: hostname@,
                        user: user@,
                        token: opt_view(token),
                        pair_code: opt_view(pair_code),
                    },
                    agent_version: agent_version@,
                },
            ],
        ),
        _ => (
            ConnStateView::Closed,
            seq![ConnActionView::Deny { reason: "expected a hello message"@ }],
        ),
    }
}

/// The state after an event, and what is to be done. What is not waited for is passed
/// over.
pub open spec fn conn_step(s: ConnStateView, e: ConnEventView) -> (
    ConnStateView,
    Seq<ConnActionView>,
) {
    let none = Seq::<ConnActionView>::empty();
    match s {
        ConnStateView::Fresh => match e {
            ConnEventView::Message(msg) => first_step(Some(msg)),
            ConnEventView::Close | ConnEventView::Other | ConnEventView::Gone => first_step(None),
            _ => (s, none),
        },
        ConnStateView::Asked { identity } => match e {
            ConnEventView::Answer(OutcomeView::Welcome { node_name, label }) => (
                ConnStateView::Serving { node_name },
                seq![ConnActionView::Welcome { node_name, label }],
            ),
            ConnEventView::Answer(OutcomeView::Pending) => (
                ConnStateView::Waiting { identity },
                none,
            ),
            ConnEventView::Answer(OutcomeView::Denied(reason)) => (
                ConnStateView::Closed,
                seq![ConnActionView::Deny { reason }, ConnActionView::Flush],
            ),
            _ => (s, none),
        },
        ConnStateView::Waiting { identity } => match e {
            ConnEventView::Close | ConnEventView::Gone => (
                ConnStateView::Closed,
                seq![ConnActionView::Forget { identity }],
            ),
            _ => (s, none),
        },
        ConnStateView::Serving { node_name } => match e {
            ConnEventView::Message(msg) => (s, seq![ConnActionView::Hear { node_name, msg }]),
            ConnEventView::PingDue => (s, seq![ConnActionView::Ping]),
            ConnEventView::Close | ConnEventView::Gone | ConnEventView::PingLost => (
                ConnStateView::Closed,
                seq![ConnActionView::Disconnect { node_name }],
            ),
            _ => (s, none),
        },
        ConnStateView::Closed => (s, none),
    }
}

fn put(out: &mut Vec<ConnAction>, a: ConnAction)
    ensures
        conn_acts(final(out)@) == conn_acts(old(out)@).push(a@),
{
    let ghost before = conn_acts(out@);
    out.push(a);
    assert(conn_acts(out@) =~= before.push(a@));
}

fn first(msg: Option<AgentMsg>, out: &mut Vec<ConnAction>) -> (r: ConnState)
    requires
        conn_acts(old(out)@) == Seq::<ConnActionView>::empty(),
    ensures
        (r@, conn_acts(final(out)@)) == first_step(msg),
{
    match msg {
        Some(
            AgentMsg::Hello {
                protocol,
                agent_version,
                machine_id,
                hostname,
                user,
                token,
                pair_code,
            },
        ) => {
            let identity = identity_for(&machine_id, &user);
            put(
                out,
                ConnAction::Ask {
                    protocol,
                    agent_version,
                    machine_id,
                    hostname,
                    user,
                    token,
                    pair_code,
                },
            );
            assert(conn_acts(out@) =~= first_step(msg).1);
            ConnState::Asked { identity }
        },
        _ => {
            put(out, ConnAction::Deny { reason: "expected a hello message".to_string() });
            assert(conn_acts(out@) =~= first_step(msg).1);
            ConnState::Closed
        },
    }
}

/// Takes in an event.
pub fn connection_next(s: ConnState, e: ConnEvent) -> (r: (ConnState, Vec<ConnAction>))
    ensures
        (r.0@, conn_acts(r.1@)) == conn_step(s@, e@),
{
    let mut out: Vec<ConnAction> = Vec::new();
    let ghost was = s@;
    let ghost what = e@;
    assert(conn_acts(out@) =~= Seq::<ConnActionView>::empty());
    let next = match s {
        ConnState::Fresh => match e {
            ConnEvent::Frame(Incoming::Message(msg)) => first(Some(msg), &mut out),
            ConnEvent::Frame(_) | ConnEvent::Gone => first(None, &mut out),
            _ => ConnState::Fresh,
        },
        ConnState::Asked { identity } => match e {
            ConnEvent::Answer(HelloOutcome::Welcome { node_name, label }) => {
                put(&mut out, ConnAction::Welcome { node_name: node_name.clone(), label });
                ConnState::Serving { node_name }
            },
            ConnEvent::Answer(HelloOutcome::Pending) => ConnState::Waiting { identity },
            ConnEvent::Answer(HelloOutcome::Denied(reason)) => {
                put(&mut out, ConnAction::Deny { reason });
                put(&mut out, ConnAction::Flush);
                ConnState::Closed
            },
            _ => ConnState::Asked { identity },
        },
        ConnState::Waiting { identity } => match e {
            ConnEvent::Frame(Incoming::Close) | ConnEvent::Gone => {
                put(&mut out, ConnAction::Forget { identity });
                ConnState::Closed
            },
            _ => ConnState::Waiting { identity },
        },
        ConnState::Serving { node_name } => match e {
            ConnEvent::Frame(Incoming::Message(msg)) => {
                put(&mut out, ConnAction::Hear { node_name: node_name.clone(), msg });
                ConnState::Serving { node_name }
            },
            ConnEvent::PingDue => {
                put(&mut out, ConnAction::Ping);
                ConnState::Serving { node_name }
            },
            ConnEvent::Frame(Incoming::Close) | ConnEvent::Gone | ConnEvent::PingLost => {
                put(&mut out, ConnAction::Disconnect { node_name });
                ConnState::Closed
            },
            _ => ConnState::Serving { node_name },
        },
        ConnState::Closed => ConnState::Closed,
    };
    assert(conn_acts(out@) =~= conn_step(was, what).1);
    (next, out)
}

// ---- laws ----------------------------------------------------------------------------------

/// Nothing that a host says counts unless it is approved: whatever happens, the registry
/// is handed a message only on a connection that was welcomed, and under its own name.
pub proof fn law_only_approved_hosts_are_heard(s: ConnStateView, e: ConnEventView, i: int)
    requires
        0 <= i < conn_step(s, e).1.len(),
        conn_step(s, e).1[i] is Hear,
    ensures
        s matches ConnStateView::Serving { node_name } && conn_step(s, e).1[i]->Hear_node_name
            == node_name,
{
}

/// A connection asks once: about its first message, where that is a hello. It never
/// starts over.
pub proof fn law_a_connection_asks_once(s: ConnStateView, e: ConnEventView)
    ensures
        !(conn_step(s, e).0 is Fresh) || s is Fresh && conn_step(s, e).1.len() == 0,
        forall|i: int|
            0 <= i < conn_step(s, e).1.len() && #[trigger] conn_step(s, e).1[i] is Ask ==> s is Fresh
                && conn_step(s, e).0 is Asked,
{
}

/// The state after a row of events, and all that is to be done on the way.
pub open spec fn conn_run(events: Seq<ConnEventView>) -> (ConnStateView, Seq<ConnActionView>)
    decreases events.len(),
{
    if events.len() == 0 {
        (ConnStateView::Fresh, Seq::empty())
    } else {
        let (s, done) = conn_run(events.drop_last());
        let (next, now) = conn_step(s, events.last());
        (next, done + now)
    }
}

/// A host whose request waits is passed over until its connection ends, and its request
/// is dropped then.
pub proof fn law_a_request_ends_with_its_connection(identity: Seq<char>, e: ConnEventView)
    ensures
        ({
            let s = ConnStateView::Waiting { identity };
            let (next, now) = conn_step(s, e);
            ||| next == s && now.len() == 0
            ||| next is Closed && now == seq![ConnActionView::Forget { identity }]
        }),
{
}

/// Whatever happens to a connection, it leaves no host connected behind: a host that was
/// welcomed is pinged and heard until the connection ends, and is told gone then; nobody
/// else is ever told gone.
pub proof fn law_welcomed_hosts_are_told_gone(events: Seq<ConnEventView>)
    ensures
        ({
            let (s, done) = conn_run(events);
            match s {
                ConnStateView::Fresh => done.len() == 0,
                ConnStateView::Asked { .. } | ConnStateView::Waiting { .. } => done.len() == 1
                    && done[0] is Ask,
                ConnStateView::Serving { node_name } => {
                    &&& done.len() >= 2
                    &&& done[0] is Ask
                    &&& done[1] is Welcome && done[1]->Welcome_node_name == node_name
                    &&& forall|i: int|
                        2 <= i < done.len() ==> (#[trigger] done[i] is Ping || done[i] is Hear)
                },
                ConnStateView::Closed => {
                    &&& done.len() >= 1
                    &&& done.len() >= 2 && done[1] is Welcome ==> done.last()
                        == (ConnActionView::Disconnect { node_name: done[1]->Welcome_node_name })
                    &&& !(done.len() >= 2 && done[1] is Welcome) ==> forall|i: int|
                        0 <= i < done.len() ==> !(#[trigger] done[i] is Disconnect)
                },
            }
        }),
    decreases events.len(),
{
    if events.len() > 0 {
        let (s, done) = conn_run(events.drop_last());
        let (next, now) = conn_step(s, events.last());
        law_welcomed_hosts_are_told_gone(events.drop_last());
        assert(now.len() <= 2);
        if now.len() == 0 {
            assert(done + now =~= done);
        }
    }
}

/// An approved host is heard: each of its messages is handed on as it came, it is
/// pinged whenever that is due, and it is told gone once it leaves, breaks off, or
/// cannot be pinged. Nothing else changes anything.
pub proof fn law_approved_hosts_are_heard(node_name: Seq<char>, msg: AgentMsg)
    ensures
        ({
            let s = ConnStateView::Serving { node_name };
            let gone = (
                ConnStateView::Closed,
                seq![ConnActionView::Disconnect { node_name }],
            );
            &&& conn_step(s, ConnEventView::Message(msg)) == (
                s,
                seq![ConnActionView::Hear { node_name, msg }],
            )
            &&& conn_step(s, ConnEventView::PingDue) == (s, seq![ConnActionView::Ping])
            &&& conn_step(s, ConnEventView::Close) == gone
            &&& conn_step(s, ConnEventView::Gone) == gone
            &&& conn_step(s, ConnEventView::PingLost) == gone
            &&& conn_step(s, ConnEventView::Other) == (s, Seq::<ConnActionView>::empty())
        }),
{
}

/// The registry's answer is followed: a host it lets in is welcomed by the name and
/// the label of the answer, one it keeps waiting waits as itself, and one it denies
/// is told why before the connection closes.
pub proof fn law_answers_are_followed(
    identity: Seq<char>,
    node_name: Seq<char>,
    label: Seq<char>,
    reason: Seq<char>,
)
    ensures
        ({
            let s = ConnStateView::Asked { identity };
            let let_in = conn_step(
                s,
                ConnEventView::Answer(OutcomeView::Welcome { node_name, label }),
            );
            let waits = conn_step(s, ConnEventView::Answer(OutcomeView::Pending));
            let denied = conn_step(s, ConnEventView::Answer(OutcomeView::Denied(reason)));
            &&& let_in.0 == (ConnStateView::Serving { node_name })
            &&& let_in.1 == seq![ConnActionView::Welcome { node_name, label }]
            &&& waits.0 == (ConnStateView::Waiting { identity })
            &&& waits.1.len() == 0
            &&& denied.0 is Closed
            &&& denied.1.len() > 0 && denied.1[0] == (ConnActionView::Deny { reason })
            &&& denied.1.last() is Flush
        }),
{
}

/// A hello is asked about with what it says of the host, unchanged, and the host is
/// known by its machine and user from then on. Anything else that comes first is
/// denied.
pub proof fn law_a_hello_is_asked_about(msg: AgentMsg)
    ensures
        ({
            let (s, todo) = conn_step(ConnStateView::Fresh, ConnEventView::Message(msg));
            match msg {
                AgentMsg::Hello {
                    protocol,
                    agent_version,
                    machine_id,
                    hostname,
                    user,
                    token,
                    pair_code,
                } => {
                    &&& s == (ConnStateView::Asked { identity: identity_of(machine_id@, user@) })
                    &&& todo.len() == 1
                    &&& todo[0] is Ask
                    &&& todo[0]->claim.protocol == protocol
                    &&& todo[0]->claim.machine_id == machine_id@
                    &&& todo[0]->claim.hostname == hostname@
                    &&& todo[0]->claim.user == user@
                    &&& token is Some ==> todo[0]->claim.token == Some(token->0@)
                    &&& token is None ==> todo[0]->claim.token is None
                    &&& pair_code is Some ==> todo[0]->claim.pair_code == Some(pair_code->0@)
                    &&& pair_code is None ==> todo[0]->claim.pair_code is None
                },
                _ => s is Closed && todo.len() == 1 && todo[0] is Deny,
            }
        }),
        forall|e: ConnEventView|
            e is Close || e is Other || e is Gone ==> (#[trigger] conn_step(
                ConnStateView::Fresh,
                e,
            )).0 is Closed,
{
}

/// A request is dropped as soon as its connection ends.
pub proof fn law_a_lost_connection_drops_its_request(identity: Seq<char>)
    ensures
        ({
            let s = ConnStateView::Waiting { identity };
            let gone = (ConnStateView::Closed, seq![ConnActionView::Forget { identity }]);
            conn_step(s, ConnEventView::Close) == gone && conn_step(s, ConnEventView::Gone) == gone
        }),
{
}

} // verus!
