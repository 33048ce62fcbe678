//! Opening a session for announcements to an output that is not routed.
//!
//! Opening alternates between deciding and doing, so it is a machine: it gives the
//! actions that are to be carried out, in order, and [`Opening::next`] takes what the
//! last of them came to.

use crate::announce::{announce_sink_name, ap2_linger, ap2_linger_ms, sink_name, AnnounceTransport, TransportView, ANNOUNCE_LINGER_MS};
use crate::devices::{Ap2Device, Ip};
use crate::groups::{Ap2Dial, Ap2Member};
use crate::reconciler::{announce_sink, ap2_announce_target, attempt, control_port_or_why, failed_open, open_failed, sink_or_why, target_of, with_session, GroupReconciler, OpenStep, PwSinkDial, PwSinkMember, RecView, SessionTransport, SinkOutcome};
use vstd::prelude::*;

verus! {

/// What is opened.
#[derive(Clone, Copy, Debug, PartialEq, Eq, Structural)]
pub enum OpenPlan {
    /// An AirPlay session, at the rate that clips have to be brought to.
    Ap2 { ip: Ip, rate: u32, delay: Option<u16>, linger: u64 },
    /// A session of a remote host.
    PwSink { control_port: u16, playout_ms: u16 },
}

/// What is waited for.
#[derive(Clone, Copy, Debug, PartialEq, Eq, Structural)]
pub enum OpenStage {
    /// The clock that receivers follow.
    Clock,
    /// A look for a sink that an earlier session left.
    Find,
    /// A new sink.
    Create,
    /// The sender, which plays from this sink.
    Start(u32),
    /// Nothing: it is open, or could not be opened.
    Over,
}

/// A session that is being opened.
pub struct Opening {
    pub output: String,
    pub plan: OpenPlan,
    pub stage: OpenStage,
}

/// The model of an [`Opening`].
pub ghost struct OpeningView {
    pub output: Seq<char>,
    pub plan: OpenPlan,
    pub stage: OpenStage,
}

/// What is to be done for it.
pub enum OpenAction {
    /// Start the clock that receivers follow. Comes to [`OpenEvent::Clock`].
    StartClock,
    /// Look for a sink. Comes to [`OpenEvent::Found`].
    FindSink { node_name: String },
    /// Create a sink and wait for it. Comes to [`OpenEvent::Sink`].
    CreateSink { node_name: String },
    /// From now on clips for the output are brought to this rate.
    SetRate { output: String, rate: u32 },
    /// Start an AirPlay sender. Comes to [`OpenEvent::Started`].
    StartAp2 { member: Ap2Member, node_id: u32, rate: u32 },
    /// Start a sender to a remote host. Comes to [`OpenEvent::Started`].
    StartPwSink { member: PwSinkMember, node_id: u32 },
    /// Forget the rate of the output.
    ClearRate { output: String },
    DestroySink { node_id: u32 },
}

/// The model of an [`OpenAction`].
pub ghost enum OpenActionView {
    StartClock,
    FindSink { node_name: Seq<char> },
    CreateSink { node_name: Seq<char> },
    SetRate { output: Seq<char>, rate: u32 },
    StartAp2 { member: Ap2Dial, node_id: u32, rate: u32 },
    StartPwSink { member: PwSinkDial, node_id: u32 },
    ClearRate { output: Seq<char> },
    DestroySink { node_id: u32 },
}

impl OpenAction {
    pub open spec fn view(&self) -> OpenActionView {
        match *self {
            OpenAction::StartClock => OpenActionView::StartClock,
            OpenAction::FindSink { node_name } => OpenActionView::FindSink { node_name: node_name@ },
            OpenAction::CreateSink { node_name } => OpenActionView::CreateSink {
                node_name: node_name@,
            },
            OpenAction::SetRate { output, rate } => OpenActionView::SetRate { output: output@, rate },
            OpenAction::StartAp2 { member, node_id, rate } => OpenActionView::StartAp2 {
                member: member@,
                node_id,
                rate,
            },
            OpenAction::StartPwSink { member, node_id } => OpenActionView::StartPwSink {
                member: member@,
                node_id,
            },
            OpenAction::ClearRate { output } => OpenActionView::ClearRate { output: output@ },
            OpenAction::DestroySink { node_id } => OpenActionView::DestroySink { node_id },
        }
    }
}

/// The models of actions.
pub open spec fn open_acts(s: Seq<OpenAction>) -> Seq<OpenActionView> {
    s.map_values(|a: OpenAction| a@)
}

/// What the last action came to.
pub enum OpenEvent {
    Clock(Result<(), String>),
    /// The sink that was there, where one was.
    Found(Option<u32>),
    Sink(SinkOutcome),
    /// The sender's handle.
    Started(Result<u64, String>),
}

/// The model of an [`OpenEvent`].
pub ghost enum OpenEventView {
    Clock(Result<(), Seq<char>>),
    Found(Option<u32>),
    Sink(SinkOutcome),
    Started(Result<u64, Seq<char>>),
}

impl OpenEvent {
    pub open spec fn view(&self) -> OpenEventView {
        match *self {
            OpenEvent::Clock(Ok(())) => OpenEventView::Clock(Ok(())),
            OpenEvent::Clock(Err(e)) => OpenEventView::Clock(Err(e@)),
            OpenEvent::Found(id) => OpenEventView::Found(id),
            OpenEvent::Sink(outcome) => OpenEventView::Sink(outcome),
            OpenEvent::Started(Ok(handle)) => OpenEventView::Started(Ok(handle)),
            OpenEvent::Started(Err(e)) => OpenEventView::Started(Err(e@)),
        }
    }
}

/// How long the session lingers once it is open.
pub open spec fn linger_of(plan: OpenPlan) -> u64 {
    match plan {
        OpenPlan::Ap2 { linger, .. } => linger,
        OpenPlan::PwSink { .. } => ANNOUNCE_LINGER_MS,
    }
}

/// The sender of the session.
pub open spec fn transport_of(plan: OpenPlan, handle: u64) -> SessionTransport {
    match plan {
        OpenPlan::Ap2 { .. } => SessionTransport::Ap2(handle),
        OpenPlan::PwSink { control_port, .. } => SessionTransport::PwSink {
            server: handle,
            control_port,
        },
    }
}

/// Where it failed, if its sender does not start.
pub open spec fn start_step(plan: OpenPlan) -> OpenStep {
    match plan {
        OpenPlan::Ap2 { .. } => OpenStep::Ap2,
        OpenPlan::PwSink { .. } => OpenStep::PwSink,
    }
}

/// What starts the sender. The rate of an AirPlay session is known before it starts, so
/// that a clip which is queued meanwhile is brought to it.
pub open spec fn start_acts(output: Seq<char>, plan: OpenPlan, node_id: u32) -> Seq<OpenActionView> {
    match plan {
        OpenPlan::Ap2 { ip, rate, delay, .. } => seq![
            OpenActionView::SetRate { output, rate },
            OpenActionView::StartAp2 { member: (output, ip, delay), node_id, rate },
        ],
        OpenPlan::PwSink { control_port, playout_ms } => seq![
            OpenActionView::StartPwSink { member: (output, control_port, playout_ms), node_id },
        ],
    }
}

/// What takes back a start that failed.
pub open spec fn abandon_acts(output: Seq<char>, node_id: u32) -> Seq<OpenActionView> {
    seq![OpenActionView::ClearRate { output }, OpenActionView::DestroySink { node_id }]
}

/// What one step comes to.
pub ghost struct OpenStepped {
    pub opening: OpeningView,
    pub rec: RecView,
    pub actions: Seq<OpenActionView>,
    /// What is reported, where it is over.
    pub result: Option<TransportView>,
}

/// A step that leaves the reconciler and reports nothing yet.
pub open spec fn goes_on(
    o: OpeningView,
    rec: RecView,
    stage: OpenStage,
    actions: Seq<OpenActionView>,
) -> OpenStepped {
    OpenStepped { opening: OpeningView { stage, ..o }, rec, actions, result: None }
}

/// A step that ends it without a session.
pub open spec fn fails(
    o: OpeningView,
    rec: RecView,
    actions: Seq<OpenActionView>,
    why: TransportView,
) -> OpenStepped {
    OpenStepped {
        opening: OpeningView { stage: OpenStage::Over, ..o },
        rec,
        actions,
        result: Some(why),
    }
}

/// One step: from where the opening is and what the last action came to. What is not
/// waited for is passed over.
pub open spec fn opening_step(o: OpeningView, rec: RecView, e: OpenEventView, now: u64) -> OpenStepped {
    let none = Seq::<OpenActionView>::empty();
    let name = sink_name(o.output);
    match (o.stage, e) {
        (OpenStage::Clock, OpenEventView::Clock(Ok(_))) => goes_on(
            o,
            rec,
            OpenStage::Find,
            seq![OpenActionView::FindSink { node_name: name }],
        ),
        (OpenStage::Clock, OpenEventView::Clock(Err(error))) => fails(
            o,
            rec,
            none,
            failed_open(OpenStep::Clock, error),
        ),
        (OpenStage::Find, OpenEventView::Found(Some(id))) => goes_on(
            o,
            rec,
            OpenStage::Start(id),
            start_acts(o.output, o.plan, id),
        ),
        (OpenStage::Find, OpenEventView::Found(None)) => goes_on(
            o,
            rec,
            OpenStage::Create,
            seq![OpenActionView::CreateSink { node_name: name }],
        ),
        (OpenStage::Create, OpenEventView::Sink(outcome)) => match sink_or_why(o.output, outcome) {
            Ok(id) => goes_on(o, rec, OpenStage::Start(id), start_acts(o.output, o.plan, id)),
            Err(why) => fails(o, rec, none, why),
        },
        (OpenStage::Start(id), OpenEventView::Started(Ok(handle))) => OpenStepped {
            opening: OpeningView { stage: OpenStage::Over, ..o },
            rec: with_session(
                rec,
                o.output,
                id,
                transport_of(o.plan, handle),
                now,
                linger_of(o.plan),
            ),
            actions: none,
            result: Some(TransportView::Starting),
        },
        (OpenStage::Start(id), OpenEventView::Started(Err(error))) => fails(
            o,
            rec,
            abandon_acts(o.output, id),
            failed_open(start_step(o.plan), error),
        ),
        _ => goes_on(o, rec, o.stage, none),
    }
}

impl GroupReconciler {
    /// Begins to open an AirPlay session for announcements, or says why that cannot be.
    pub fn open_ap2_announce_session(
        &self,
        output: &str,
        device: Option<&Ap2Device>,
        rate: u32,
        delay: Option<u16>,
        default_delay_ms: u16,
    ) -> (r: Result<(Opening, Vec<OpenAction>), AnnounceTransport>)
        ensures
            match r {
                Ok((o, actions)) => {
                    &&& target_of(device) is Ok
                    &&& o@ == (OpeningView {
                        output: output@,
                        plan: OpenPlan::Ap2 {
                            ip: target_of(device)->Ok_0,
                            rate,
                            delay,
                            linger: ap2_linger(delay, default_delay_ms) as u64,
                        },
                        stage: OpenStage::Clock,
                    })
                    &&& open_acts(actions@) == seq![OpenActionView::StartClock]
                },
                Err(why) => target_of(device) == Err::<Ip, TransportView>(why@),
            },
    {
        let target = ap2_announce_target(device);
        assert(attempt(target) == target_of(device));
        match target {
            Ok(ip) => {
                let linger: u64 = ap2_linger_ms(delay, default_delay_ms);
                let o = Opening {
                    output: output.to_string(),
                    plan: OpenPlan::Ap2 { ip, rate, delay, linger },
                    stage: OpenStage::Clock,
                };
                let actions = one(OpenAction::StartClock);
                Ok((o, actions))
            },
            Err(why) => Err(why),
        }
    }

    /// Begins to open a session of a remote host for announcements, or says why that
    /// cannot be. `connected` is whether the host's agent is.
    pub fn open_pwsink_announce_session(
        &self,
        output: &str,
        connected: bool,
        playout_ms: u16,
    ) -> (r: Result<(Opening, Vec<OpenAction>), AnnounceTransport>)
        ensures
            match r {
                Ok((o, actions)) => {
                    &&& control_port_or_why(self@, connected) is Ok
                    &&& o@ == (OpeningView {
                        output: output@,
                        plan: OpenPlan::PwSink {
                            control_port: control_port_or_why(self@, connected)->Ok_0,
                            playout_ms,
                        },
                        stage: OpenStage::Find,
                    })
                    &&& open_acts(actions@) == seq![
                        OpenActionView::FindSink { node_name: sink_name(output@) },
                    ]
                },
                Err(why) => control_port_or_why(self@, connected) == Err::<u16, TransportView>(
                    why@,
                ),
            },
    {
        let port = self.pwsink_announce_port(connected);
        assert(attempt(port) == control_port_or_why(self@, connected));
        match port {
            Ok(control_port) => {
                let o = Opening {
                    output: output.to_string(),
                    plan: OpenPlan::PwSink { control_port, playout_ms },
                    stage: OpenStage::Find,
                };
                let actions = one(OpenAction::FindSink { node_name: announce_sink_name(output) });
                Ok((o, actions))
            },
            Err(why) => Err(why),
        }
    }
}

fn one(a: OpenAction) -> (r: Vec<OpenAction>)
    ensures
        open_acts(r@) == seq![a@],
{
    let mut r: Vec<OpenAction> = Vec::new();
    r.push(a);
    assert(open_acts(r@) =~= seq![a@]);
    r
}

fn two(a: OpenAction, b: OpenAction) -> (r: Vec<OpenAction>)
    ensures
        open_acts(r@) == seq![a@, b@],
{
    let mut r: Vec<OpenAction> = Vec::new();
    r.push(a);
    r.push(b);
    assert(open_acts(r@) =~= seq![a@, b@]);
    r
}

fn no_acts() -> (r: Vec<OpenAction>)
    ensures
        open_acts(r@) == Seq::<OpenActionView>::empty(),
{
    let r: Vec<OpenAction> = Vec::new();
    assert(open_acts(r@) =~= Seq::<OpenActionView>::empty());
    r
}

impl Opening {
    pub open spec fn view(&self) -> OpeningView {
        OpeningView { output: self.output@, plan: self.plan, stage: self.stage }
    }

    /// How long the session lingers once it is open.
    pub fn linger(&self) -> (r: u64)
        ensures
            r == linger_of(self@.plan),
    {
        match self.plan {
            OpenPlan::Ap2 { linger, .. } => linger,
            OpenPlan::PwSink { .. } => ANNOUNCE_LINGER_MS,
        }
    }

    fn starts(&mut self, node_id: u32) -> (r: Vec<OpenAction>)
        ensures
            final(self)@ == (OpeningView { stage: OpenStage::Start(node_id), ..old(self)@ }),
            open_acts(r@) == start_acts(old(self)@.output, old(self)@.plan, node_id),
    {
        self.stage = OpenStage::Start(node_id);
        match self.plan {
            OpenPlan::Ap2 { ip, rate, delay, .. } => two(
                OpenAction::SetRate { output: self.output.clone(), rate },
                OpenAction::StartAp2 {
                    member: Ap2Member { node_name: self.output.clone(), ip, delay },
                    node_id,
                    rate,
                },
            ),
            OpenPlan::PwSink { control_port, playout_ms } => one(
                OpenAction::StartPwSink {
                    member: PwSinkMember { node_name: self.output.clone(), control_port, playout_ms },
                    node_id,
                },
            ),
        }
    }

    /// One step of the opening, from what the last action came to. Gives back what is to
    /// be done next, and what is to be reported where the opening is over.
    pub fn next(&mut self, rec: &mut GroupReconciler, event: OpenEvent, now: u64) -> (r: (
        Vec<OpenAction>,
        Option<AnnounceTransport>,
    ))
        requires
            event@ matches OpenEventView::Started(Ok(_)) ==> now + linger_of(old(self)@.plan)
                <= u64::MAX,
        ensures
            ({
                let s = opening_step(old(self)@, old(rec)@, event@, now);
                &&& final(self)@ == s.opening
                &&& final(rec)@ == s.rec
                &&& open_acts(r.0@) == s.actions
                &&& match r.1 {
                    Some(t) => s.result == Some(t@),
                    None => s.result is None,
                }
            }),
    {
        match self.stage {
            OpenStage::Clock => match event {
                OpenEvent::Clock(Ok(())) => {
                    self.stage = OpenStage::Find;
                    let name = announce_sink_name(&self.output);
                    (one(OpenAction::FindSink { node_name: name }), None)
                },
                OpenEvent::Clock(Err(error)) => {
                    self.stage = OpenStage::Over;
                    (no_acts(), Some(open_failed(OpenStep::Clock, &error)))
                },
                _ => (no_acts(), None),
            },
            OpenStage::Find => match event {
                OpenEvent::Found(Some(id)) => (self.starts(id), None),
                OpenEvent::Found(None) => {
                    self.stage = OpenStage::Create;
                    let name = announce_sink_name(&self.output);
                    (one(OpenAction::CreateSink { node_name: name }), None)
                },
                _ => (no_acts(), None),
            },
            OpenStage::Create => match event {
                OpenEvent::Sink(outcome) => {
                    let sink = announce_sink(&self.output, outcome);
                    assert(attempt(sink) == sink_or_why(self@.output, outcome));
                    match sink {
                        Ok(id) => (self.starts(id), None),
                        Err(why) => {
                            self.stage = OpenStage::Over;
                            (no_acts(), Some(why))
                        },
                    }
                },
                _ => (no_acts(), None),
            },
            OpenStage::Start(id) => match event {
                OpenEvent::Started(Ok(handle)) => {
                    self.stage = OpenStage::Over;
                    let linger: u64 = self.linger();
                    let transport = match self.plan {
                        OpenPlan::Ap2 { .. } => SessionTransport::Ap2(handle),
                        OpenPlan::PwSink { control_port, .. } => SessionTransport::PwSink {
                            server: handle,
                            control_port,
                        },
                    };
                    let t = rec.session_opened(&self.output, id, transport, now, linger);
                    (no_acts(), Some(t))
                },
                OpenEvent::Started(Err(error)) => {
                    self.stage = OpenStage::Over;
                    let step = match self.plan {
                        OpenPlan::Ap2 { .. } => OpenStep::Ap2,
                        OpenPlan::PwSink { .. } => OpenStep::PwSink,
                    };
                    let back = two(
                        OpenAction::ClearRate { output: self.output.clone() },
                        OpenAction::DestroySink { node_id: id },
                    );
                    (back, Some(open_failed(step, &error)))
                },
                _ => (no_acts(), None),
            },
            OpenStage::Over => (no_acts(), None),
        }
    }
}

// ---- laws ----------------------------------------------------------------------------------

/// The event is the one that is waited for.
pub open spec fn awaits(stage: OpenStage, e: OpenEventView) -> bool {
    match stage {
        OpenStage::Clock => e is Clock,
        OpenStage::Find => e is Found,
        OpenStage::Create => e is Sink,
        OpenStage::Start(_) => e is Started,
        OpenStage::Over => false,
    }
}

/// How many events an opening waits for at most.
pub open spec fn events_left(stage: OpenStage) -> nat {
    match stage {
        OpenStage::Clock => 4,
        OpenStage::Find => 3,
        OpenStage::Create => 2,
        OpenStage::Start(_) => 1,
        OpenStage::Over => 0,
    }
}

/// An opening comes to an end: each event that is waited for brings it closer to one, and
/// it reports exactly once, when it gets there.
pub proof fn law_an_opening_ends(o: OpeningView, rec: RecView, e: OpenEventView, now: u64)
    requires
        awaits(o.stage, e),
    ensures
        ({
            let s = opening_step(o, rec, e, now);
            &&& events_left(s.opening.stage) < events_left(o.stage)
            &&& s.result is Some <==> s.opening.stage is Over
        }),
{
}

/// The rate of an AirPlay session is published before its sender starts, and it is the
/// rate that the sender starts with.
pub proof fn law_the_rate_comes_before_the_sender(
    o: OpeningView,
    rec: RecView,
    e: OpenEventView,
    now: u64,
    i: int,
)
    requires
        ({
            let s = opening_step(o, rec, e, now);
            0 <= i < s.actions.len() && s.actions[i] is StartAp2
        }),
    ensures
        ({
            let s = opening_step(o, rec, e, now);
            &&& i > 0
            &&& s.actions[i - 1] == (OpenActionView::SetRate {
                output: o.output,
                rate: s.actions[i]->StartAp2_rate,
            })
        }),
{
}

/// A session that could not be opened leaves nothing behind: the reconciler knows of no
/// new session, and where a sink was taken for it, the sink and the rate go.
pub proof fn law_a_failed_opening_leaves_nothing(
    o: OpeningView,
    rec: RecView,
    e: OpenEventView,
    now: u64,
)
    requires
        opening_step(o, rec, e, now).result matches Some(t) && t is Unavailable,
    ensures
        ({
            let s = opening_step(o, rec, e, now);
            &&& s.rec == rec
            &&& s.opening.stage is Over
            &&& o.stage matches OpenStage::Start(id) ==> s.actions == abandon_acts(o.output, id)
            &&& !(o.stage is Start) ==> s.actions.len() == 0
        }),
{
}

/// A session that was opened is one that a clip can wait for: it is known by its output,
/// plays from the sink that was taken for it, and its lease runs for one linger.
pub proof fn law_an_opened_session_is_leased(
    o: OpeningView,
    rec: RecView,
    e: OpenEventView,
    now: u64,
)
    requires
        opening_step(o, rec, e, now).result matches Some(t) && t is Starting,
        now + linger_of(o.plan) <= u64::MAX,
    ensures
        ({
            let sessions = opening_step(o, rec, e, now).rec.sessions;
            &&& sessions.contains_key(o.output)
            &&& o.stage == OpenStage::Start(sessions[o.output].sink_node_id)
            &&& sessions[o.output].expires_at == now + sessions[o.output].linger
            &&& sessions[o.output].linger == linger_of(o.plan)
            &&& forall|k: Seq<char>|
                k != o.output ==> (#[trigger] sessions.contains_key(k) <==> rec.sessions.contains_key(
                    k,
                )) && sessions[k] == rec.sessions[k]
        }),
{
}

/// The event says which sink there is: one that was left, or a new one.
pub open spec fn sink_known(stage: OpenStage, e: OpenEventView, id: u32) -> bool {
    ||| stage == OpenStage::Find && e == OpenEventView::Found(Some(id))
    ||| stage == OpenStage::Create && e == OpenEventView::Sink(SinkOutcome::Ready(id))
}

/// Once the sink is known the sender is started on it, as planned: for a receiver at
/// its address, rate and delay, for a host on its port with its playout delay; and no
/// sink is made where one is there already.
pub proof fn law_the_planned_sender_is_started(
    o: OpeningView,
    rec: RecView,
    e: OpenEventView,
    now: u64,
    id: u32,
)
    requires
        sink_known(o.stage, e, id),
    ensures
        ({
            let s = opening_step(o, rec, e, now);
            &&& s.opening.stage == OpenStage::Start(id)
            &&& s.opening.output == o.output
            &&& s.opening.plan == o.plan
            &&& s.rec == rec
            &&& s.result is None
            &&& s.actions.len() > 0
            &&& forall|i: int| 0 <= i < s.actions.len() ==> (#[trigger] s.actions[i]) !is CreateSink
            &&& o.plan matches OpenPlan::Ap2 { ip, rate, delay, linger } ==> s.actions.last() == (
            OpenActionView::StartAp2 { member: (o.output, ip, delay), node_id: id, rate })
            &&& o.plan matches OpenPlan::PwSink { control_port, playout_ms } ==> s.actions.last()
                == (OpenActionView::StartPwSink {
                member: (o.output, control_port, playout_ms),
                node_id: id,
            })
        }),
{
}

/// A sink is made exactly where none was found, and it is looked for under the name
/// that it is made with. For a receiver it is looked for only once the clock runs.
pub proof fn law_a_sink_is_made_where_none_was_left(
    o: OpeningView,
    rec: RecView,
    now: u64,
)
    ensures
        o.stage == OpenStage::Find ==> {
            let s = opening_step(o, rec, OpenEventView::Found(None), now);
            s.opening.stage == OpenStage::Create && s.actions == seq![
                OpenActionView::CreateSink { node_name: sink_name(o.output) },
            ] && s.rec == rec && s.result is None
        },
        o.stage == OpenStage::Clock ==> {
            let s = opening_step(o, rec, OpenEventView::Clock(Ok(())), now);
            s.opening.stage == OpenStage::Find && s.actions == seq![
                OpenActionView::FindSink { node_name: sink_name(o.output) },
            ] && s.rec == rec && s.result is None
        },
        forall|e: Seq<char>|
            o.stage == OpenStage::Clock ==> {
                let s = #[trigger] opening_step(o, rec, OpenEventView::Clock(Err(e)), now);
                s.opening.stage is Over && s.actions.len() == 0 && s.result is Some
                    && s.result->0 is Unavailable && s.rec == rec
            },
        forall|outcome: SinkOutcome|
            o.stage == OpenStage::Create && !(outcome is Ready) ==> {
                let s = #[trigger] opening_step(o, rec, OpenEventView::Sink(outcome), now);
                s.opening.stage is Over && s.actions.len() == 0 && s.result is Some
                    && s.result->0 is Unavailable && s.rec == rec
            },
{
}

/// Once the sender runs the session is known with that sender, with the host's own
/// port, on the sink it was started on, and lingers for as long as planned: a
/// receiver's for its own time, a host's for the usual time. Where the sender did not
/// start, the sink and the rate go again and there is no session.
pub proof fn law_a_started_session_is_known(
    o: OpeningView,
    rec: RecView,
    now: u64,
    id: u32,
    handle: u64,
    error: Seq<char>,
)
    requires
        o.stage == OpenStage::Start(id),
        now + linger_of(o.plan) <= u64::MAX,
    ensures
        ({
            let good = opening_step(o, rec, OpenEventView::Started(Ok(handle)), now);
            let bad = opening_step(o, rec, OpenEventView::Started(Err(error)), now);
            let session = good.rec.sessions[o.output];
            &&& good.result == Some(TransportView::Starting)
            &&& good.actions.len() == 0
            &&& good.rec.sessions.contains_key(o.output)
            &&& session.sink_node_id == id
            &&& session.expires_at == now + session.linger
            &&& o.plan matches OpenPlan::Ap2 { ip, rate, delay, linger } ==> session.transport
                == SessionTransport::Ap2(handle) && session.linger == linger
            &&& o.plan matches OpenPlan::PwSink { control_port, playout_ms } ==> session.transport
                == (SessionTransport::PwSink { server: handle, control_port }) && session.linger
                == 30_000
            &&& good.rec.running == rec.running
            &&& good.rec.idle == rec.idle
            &&& bad.rec == rec
            &&& bad.result is Some && bad.result->0 is Unavailable
            &&& bad.actions.contains(OpenActionView::ClearRate { output: o.output })
            &&& bad.actions.contains(OpenActionView::DestroySink { node_id: id })
        }),
{
    let bad = opening_step(o, rec, OpenEventView::Started(Err(error)), now);
    assert(bad.actions[0] == (OpenActionView::ClearRate { output: o.output }));
    assert(bad.actions[1] == (OpenActionView::DestroySink { node_id: id }));
}

} // verus!
