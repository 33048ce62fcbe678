//! What one watching client is sent, and when.
//!
//! The matrix goes out when something changed, the listings with the next tick after a
//! change, the live figures with every tick, and each of them only where its payload is
//! not the one the client was sent last.

use crate::text::{opt_view, same};
use vstd::prelude::*;

verus! {

/// The kinds of frames.
#[derive(Clone, Copy, Debug, PartialEq, Eq, Structural)]
pub enum Slot {
    Matrix,
    Outputs,
    Discovered,
    Agents,
    NowPlaying,
    Meters,
}

/// The payload that was sent last, for each kind of frame.
pub struct SentListings {
    pub matrix: Option<String>,
    pub outputs: Option<String>,
    pub discovered: Option<String>,
    pub agents: Option<String>,
    pub now_playing: Option<String>,
    pub meters: Option<String>,
}

impl SentListings {
    /// The payload that was sent last.
    pub open spec fn last(self, slot: Slot) -> Option<Seq<char>> {
        match slot {
            Slot::Matrix => opt_view(self.matrix),
            Slot::Outputs => opt_view(self.outputs),
            Slot::Discovered => opt_view(self.discovered),
            Slot::Agents => opt_view(self.agents),
            Slot::NowPlaying => opt_view(self.now_playing),
            Slot::Meters => opt_view(self.meters),
        }
    }

    /// Nothing was sent yet.
    pub fn new() -> (r: Self)
        ensures
            forall|s: Slot| #[trigger] r.last(s) is None,
    {
        SentListings {
            matrix: None,
            outputs: None,
            discovered: None,
            agents: None,
            now_playing: None,
            meters: None,
        }
    }

    /// Whether a frame is to be sent: it is, and is noted as sent, where its payload
    /// is not the one that was sent last.
    pub fn push_if_changed(&mut self, slot: Slot, payload: &str) -> (send: bool)
        ensures
            send == (old(self).last(slot) != Some(payload@)),
            final(self).last(slot) == Some(payload@),
            forall|s: Slot|
                s != slot ==> #[trigger] final(self).last(s) == old(self).last(s),
    {
        let sent = match slot {
            Slot::Matrix => &self.matrix,
            Slot::Outputs => &self.outputs,
            Slot::Discovered => &self.discovered,
            Slot::Agents => &self.agents,
            Slot::NowPlaying => &self.now_playing,
            Slot::Meters => &self.meters,
        };
        match sent {
            Some(last) => {
                if same(last, payload) {
                    return false;
                }
            },
            None => {},
        }
        let next = Some(String::from_str(payload));
        match slot {
            Slot::Matrix => {
                self.matrix = next;
            },
            Slot::Outputs => {
                self.outputs = next;
            },
            Slot::Discovered => {
                self.discovered = next;
            },
            Slot::Agents => {
                self.agents = next;
            },
            Slot::NowPlaying => {
                self.now_playing = next;
            },
            Slot::Meters => {
                self.meters = next;
            },
        }
        true
    }
}

/// What may happen to a client's connection.
#[derive(Clone, Copy, Debug, PartialEq, Eq, Structural)]
pub enum FeedEvent {
    /// It was opened.
    Opened,
    /// Something changed, or so much that changes were missed.
    Changed,
    /// There will be no more changes.
    NoMoreChanges,
    /// The timer ran out.
    Tick,
    /// The client sent something, which is passed over.
    Heard,
    /// The client is gone.
    Left,
    /// A frame could not be sent.
    SendFailed,
}

/// What is to be done about it.
#[derive(Clone, Copy, Debug, PartialEq, Eq, Structural)]
pub enum FeedAction {
    /// Count the client as a watcher.
    Watch,
    /// Build the matrix, meter the sources it shows, and push it.
    PushMatrix,
    /// Push the outputs, what was discovered, the agents and what is playing.
    PushListings,
    /// Push the live figures.
    PushMeters,
    /// The client does not watch any longer.
    Unwatch,
}

/// Where a client's connection is.
#[derive(Clone, Copy, Debug, PartialEq, Eq, Structural)]
pub enum FeedState {
    /// Not opened yet.
    Fresh,
    /// Open; whether the listings may have moved.
    Open { listings_dirty: bool },
    /// Ended.
    Closed,
}

/// The state after an event, and what is to be done.
pub open spec fn feed_step(s: FeedState, e: FeedEvent) -> (FeedState, Seq<FeedAction>) {
    match s {
        FeedState::Fresh => if e == FeedEvent::Opened {
            (
                FeedState::Open { listings_dirty: false },
                seq![FeedAction::Watch, FeedAction::PushMatrix, FeedAction::PushListings],
            )
        } else {
            (s, Seq::empty())
        },
        FeedState::Open { listings_dirty } => match e {
            FeedEvent::Changed => (
                FeedState::Open { listings_dirty: true },
                seq![FeedAction::PushMatrix],
            ),
            FeedEvent::Tick => (
                FeedState::Open { listings_dirty: false },
                if listings_dirty {
                    seq![FeedAction::PushMeters, FeedAction::PushListings]
                } else {
                    seq![FeedAction::PushMeters]
                },
            ),
            FeedEvent::NoMoreChanges | FeedEvent::Left | FeedEvent::SendFailed => (
                FeedState::Closed,
                seq![FeedAction::Unwatch],
            ),
            FeedEvent::Opened | FeedEvent::Heard => (s, Seq::empty()),
        },
        FeedState::Closed => (s, Seq::empty()),
    }
}

/// Takes in an event.
pub fn feed_next(s: FeedState, e: FeedEvent) -> (r: (FeedState, Vec<FeedAction>))
    ensures
        (r.0, r.1@) == feed_step(s, e),
{
    let mut out: Vec<FeedAction> = Vec::new();
    let next = match s {
        FeedState::Fresh => match e {
            FeedEvent::Opened => {
                out.push(FeedAction::Watch);
                out.push(FeedAction::PushMatrix);
                out.push(FeedAction::PushListings);
                FeedState::Open { listings_dirty: false }
            },
            _ => s,
        },
        FeedState::Open { listings_dirty } => match e {
            FeedEvent::Changed => {
                out.push(FeedAction::PushMatrix);
                FeedState::Open { listings_dirty: true }
            },
            FeedEvent::Tick => {
                out.push(FeedAction::PushMeters);
                if listings_dirty {
                    out.push(FeedAction::PushListings);
                }
                FeedState::Open { listings_dirty: false }
            },
            FeedEvent::NoMoreChanges | FeedEvent::Left | FeedEvent::SendFailed => {
                out.push(FeedAction::Unwatch);
                FeedState::Closed
            },
            FeedEvent::Opened | FeedEvent::Heard => s,
        },
        FeedState::Closed => s,
    };
    assert(out@ =~= feed_step(s, e).1);
    (next, out)
}

// ---- laws -----------------------------------------------------------------------------------------

/// The state after a row of events, and all that is to be done on the way.
pub open spec fn feed_run(events: Seq<FeedEvent>) -> (FeedState, Seq<FeedAction>)
    decreases events.len(),
{
    if events.len() == 0 {
        (FeedState::Fresh, Seq::empty())
    } else {
        let (s, done) = feed_run(events.drop_last());
        let (next, now) = feed_step(s, events.last());
        (next, done + now)
    }
}

/// How often an action is in the list.
pub open spec fn times(actions: Seq<FeedAction>, a: FeedAction) -> nat
    decreases actions.len(),
{
    if actions.len() == 0 {
        0
    } else {
        times(actions.drop_last(), a) + if actions.last() == a {
            1nat
        } else {
            0
        }
    }
}

proof fn lemma_times_add(x: Seq<FeedAction>, y: Seq<FeedAction>, a: FeedAction)
    ensures
        times(x + y, a) == times(x, a) + times(y, a),
    decreases y.len(),
{
    if y.len() == 0 {
        assert(x + y =~= x);
    } else {
        lemma_times_add(x, y.drop_last(), a);
        assert((x + y).drop_last() =~= x + y.drop_last());
        assert((x + y).last() == y.last());
    }
}

/// Watching is balanced: whatever happens to a connection, its client is counted once
/// while it is open and is not counted before or after.
pub proof fn law_watching_is_balanced(events: Seq<FeedEvent>)
    ensures
        ({
            let (s, done) = feed_run(events);
            let on = times(done, FeedAction::Watch);
            let off = times(done, FeedAction::Unwatch);
            match s {
                FeedState::Fresh => on == 0 && off == 0,
                FeedState::Open { .. } => on == 1 && off == 0,
                FeedState::Closed => on == 1 && off == 1,
            }
        }),
    decreases events.len(),
{
    if events.len() > 0 {
        let (s, done) = feed_run(events.drop_last());
        let (next, now) = feed_step(s, events.last());
        law_watching_is_balanced(events.drop_last());
        lemma_times_add(done, now, FeedAction::Watch);
        lemma_times_add(done, now, FeedAction::Unwatch);
        reveal_with_fuel(times, 4);
        assert(now.len() <= 3);
    }
}

/// A burst of changes costs one look at the listings: none while the changes come in,
/// and one with the next tick.
pub proof fn law_a_burst_costs_one_listing(s: FeedState)
    requires
        s is Open,
    ensures
        ({
            let (s1, a1) = feed_step(s, FeedEvent::Changed);
            let (s2, a2) = feed_step(s1, FeedEvent::Changed);
            let (s3, a3) = feed_step(s2, FeedEvent::Tick);
            let (s4, a4) = feed_step(s3, FeedEvent::Tick);
            &&& s2 == s1
            &&& !a1.contains(FeedAction::PushListings)
            &&& !a2.contains(FeedAction::PushListings)
            &&& times(a3, FeedAction::PushListings) == 1
            &&& !a4.contains(FeedAction::PushListings)
        }),
{
    reveal_with_fuel(times, 3);
    let (s1, a1) = feed_step(s, FeedEvent::Changed);
    let (s2, a2) = feed_step(s1, FeedEvent::Changed);
    let (s3, a3) = feed_step(s2, FeedEvent::Tick);
    assert(a3.drop_last() =~= seq![FeedAction::PushMeters]);
    assert(a3.drop_last().drop_last() =~= Seq::<FeedAction>::empty());
}

/// Event `i` is a change that no tick has followed.
pub open spec fn unshown_change(events: Seq<FeedEvent>, i: int) -> bool {
    0 < i < events.len() && events[i] == FeedEvent::Changed && forall|j: int|
        i < j < events.len() ==> #[trigger] events[j] != FeedEvent::Tick
}

proof fn lemma_run_next(events: Seq<FeedEvent>)
    requires
        events.len() > 0,
    ensures
        feed_run(events).0 == feed_step(feed_run(events.drop_last()).0, events.last()).0,
{
}

proof fn lemma_unshown(events: Seq<FeedEvent>)
    requires
        events.len() > 1,
    ensures
        (exists|i: int| #[trigger] unshown_change(events, i)) <==> events.last()
            == FeedEvent::Changed || (events.last() != FeedEvent::Tick && exists|i: int|
            #[trigger] unshown_change(events.drop_last(), i)),
{
    let front = events.drop_last();
    let n = events.len() - 1;
    if events.last() == FeedEvent::Changed {
        assert(unshown_change(events, n));
    }
    if events.last() != FeedEvent::Tick && exists|i: int| #[trigger] unshown_change(front, i) {
        let i = choose|i: int| #[trigger] unshown_change(front, i);
        assert forall|j: int| i < j < events.len() implies #[trigger] events[j]
            != FeedEvent::Tick by {
            if j < front.len() {
                assert(front[j] != FeedEvent::Tick);
            }
        }
        assert(unshown_change(events, i));
    }
    if exists|i: int| #[trigger] unshown_change(events, i) {
        let i = choose|i: int| #[trigger] unshown_change(events, i);
        if i < n {
            assert(events[n] != FeedEvent::Tick);
            assert forall|j: int| i < j < front.len() implies #[trigger] front[j]
                != FeedEvent::Tick by {
                assert(events[j] != FeedEvent::Tick);
            }
            assert(unshown_change(front, i));
        }
    }
}

/// Over any row of events that opens a connection and does not end it, the listings are
/// due exactly where something changed since the last tick.
pub proof fn law_a_change_makes_the_listings_due(events: Seq<FeedEvent>)
    requires
        events.len() > 0,
        events[0] == FeedEvent::Opened,
        forall|i: int|
            0 <= i < events.len() ==> !(#[trigger] events[i] is NoMoreChanges || events[i] is Left
                || events[i] is SendFailed),
    ensures
        feed_run(events).0 is Open,
        feed_run(events).0->listings_dirty <==> exists|i: int| #[trigger] unshown_change(events, i),
    decreases events.len(),
{
    let front = events.drop_last();
    let n = events.len() - 1;
    lemma_run_next(events);
    assert(!(events[n] is NoMoreChanges || events[n] is Left || events[n] is SendFailed));
    if front.len() > 0 {
        assert forall|i: int| 0 <= i < front.len() implies !(#[trigger] front[i] is NoMoreChanges
            || front[i] is Left || front[i] is SendFailed) by {
            assert(front[i] == events[i]);
        }
        law_a_change_makes_the_listings_due(front);
        lemma_unshown(events);
    } else {
        assert(feed_run(front).0 is Fresh);
    }
}

/// A client is shown everything when it opens, the matrix with every change, the live
/// figures with every tick, and the listings with the first tick after a change. Once
/// it is gone it is shown nothing.
pub proof fn law_a_client_is_kept_up_to_date(dirty: bool, e: FeedEvent)
    ensures
        ({
            let opened = feed_step(FeedState::Fresh, FeedEvent::Opened).1;
            let s = FeedState::Open { listings_dirty: dirty };
            let ticked = feed_step(s, FeedEvent::Tick).1;
            &&& opened.contains(FeedAction::PushMatrix)
            &&& opened.contains(FeedAction::PushListings)
            &&& feed_step(s, FeedEvent::Changed).1.contains(FeedAction::PushMatrix)
            &&& ticked.contains(FeedAction::PushMeters)
            &&& ticked.contains(FeedAction::PushListings) <==> dirty
            &&& e is Left || e is SendFailed || e is NoMoreChanges ==> feed_step(s, e).0 is Closed
            &&& feed_step(FeedState::Closed, e) == (FeedState::Closed, Seq::<FeedAction>::empty())
        }),
{
    let opened = feed_step(FeedState::Fresh, FeedEvent::Opened).1;
    assert(opened[1] == FeedAction::PushMatrix && opened[2] == FeedAction::PushListings);
    let s = FeedState::Open { listings_dirty: dirty };
    assert(feed_step(s, FeedEvent::Changed).1[0] == FeedAction::PushMatrix);
    let ticked = feed_step(s, FeedEvent::Tick).1;
    assert(ticked[0] == FeedAction::PushMeters);
    if dirty {
        assert(ticked[1] == FeedAction::PushListings);
    }
}

} // verus!
