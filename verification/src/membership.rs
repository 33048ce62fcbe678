//! Which connected sendspin devices are in their group, which is what starts a
//! stream to them.
//!
//! A device that connects is only parked. It joins once it has reported its state
//! (or a grace period is over) and something is to be played on it; under
//! [`StreamPolicy::WhenAnnounced`] it leaves again some time after its
//! announcement has ended. Times are in milliseconds.

use crate::maps::{lemma_push_contains, lemma_sorted_unique, lemma_take_next, sorted_names, NameMap, NameSet};
use crate::sendspin::StreamPolicy;
use crate::text::{same, views};
use vstd::prelude::*;

verus! {

/// How long a device may stay silent before it is streamed to all the same.
pub const READY_GRACE_MS: u64 = 3000;

/// How long a device keeps its stream after its announcement, so that what is
/// queued on it is still heard.
pub const ANNOUNCE_DRAIN_MS: u64 = 1500;

/// A connected device that is parked.
pub struct Parked {
    /// Its output node.
    pub node: String,
    /// When it connected.
    pub since: u64,
}

/// The connected devices, by client id.
pub struct Membership {
    pub pending: NameMap<Parked>,
    /// Those that have reported their state.
    pub ready: NameSet,
    /// Those that are in their group.
    pub grouped: NameSet,
    /// Since when those have nothing to play.
    pub finished_at: NameMap<u64>,
}

/// Whether there is something to play on an output.
pub open spec fn wanted(policy: StreamPolicy, active: Set<Seq<char>>, node: Seq<char>) -> bool {
    match policy {
        StreamPolicy::Always => true,
        StreamPolicy::WhenAnnounced => active.contains(node),
    }
}

fn is_wanted(policy: StreamPolicy, active: &NameSet, node: &str) -> (r: bool)
    ensures
        r == wanted(policy, active@, node@),
{
    match policy {
        StreamPolicy::Always => true,
        StreamPolicy::WhenAnnounced => active.contains(node),
    }
}

/// Whether a stream to a client is to be started.
pub open spec fn promotable(
    m: Membership,
    policy: StreamPolicy,
    active: Set<Seq<char>>,
    now: u64,
    id: Seq<char>,
) -> bool {
    &&& m.pending@.contains_key(id)
    &&& m.ready@.contains(id) || now - m.pending@[id].since >= READY_GRACE_MS
    &&& wanted(policy, active, m.pending@[id].node@)
    &&& !m.grouped@.contains(id)
}

/// Whether a client is in its group with nothing to play.
pub open spec fn idle(
    m: Membership,
    policy: StreamPolicy,
    active: Set<Seq<char>>,
    id: Seq<char>,
) -> bool {
    &&& m.grouped@.contains(id)
    &&& m.pending@.contains_key(id)
    &&& !wanted(policy, active, m.pending@[id].node@)
}

/// Since when a client has nothing to play.
pub open spec fn idle_since(m: Membership, id: Seq<char>, now: u64) -> u64 {
    if m.finished_at@.contains_key(id) {
        m.finished_at@[id]
    } else {
        now
    }
}

/// Whether the stream to a client is to be ended.
pub open spec fn demotable(
    m: Membership,
    policy: StreamPolicy,
    active: Set<Seq<char>>,
    now: u64,
    id: Seq<char>,
) -> bool {
    &&& policy == StreamPolicy::WhenAnnounced
    &&& idle(m, policy, active, id)
    &&& now - idle_since(m, id, now) >= ANNOUNCE_DRAIN_MS
}

/// The clock a client is given by one look: gone where it has something to play
/// or its stream ends, running where it has nothing to play.
pub open spec fn clock_after(
    m: Membership,
    policy: StreamPolicy,
    active: Set<Seq<char>>,
    now: u64,
    id: Seq<char>,
) -> Option<u64> {
    if policy == StreamPolicy::WhenAnnounced && m.grouped@.contains(id) && m.pending@.contains_key(
        id,
    ) {
        if idle(m, policy, active, id) && !demotable(m, policy, active, now, id) {
            Some(idle_since(m, id, now))
        } else {
            None
        }
    } else if m.finished_at@.contains_key(id) {
        Some(m.finished_at@[id])
    } else {
        None
    }
}

/// What is under a key, where there is something.
pub open spec fn lookup<V>(m: Map<Seq<char>, V>, k: Seq<char>) -> Option<V> {
    if m.contains_key(k) {
        Some(m[k])
    } else {
        None
    }
}

impl Membership {
    pub fn new() -> (r: Self)
        ensures
            r.pending@ == Map::<Seq<char>, Parked>::empty(),
            r.ready@ == Set::<Seq<char>>::empty(),
            r.grouped@ == Set::<Seq<char>>::empty(),
            r.finished_at@ == Map::<Seq<char>, u64>::empty(),
    {
        Membership {
            pending: NameMap::new(),
            ready: NameSet::new(),
            grouped: NameSet::new(),
            finished_at: NameMap::new(),
        }
    }

    /// A client connected: it is parked, in no group, and has to report anew.
    pub fn connected(&mut self, client_id: &str, node: String, now: u64)
        ensures
            final(self).pending@ == old(self).pending@.insert(
                client_id@,
                (Parked { node, since: now }),
            ),
            final(self).ready@ == old(self).ready@.remove(client_id@),
            final(self).grouped@ == old(self).grouped@.remove(client_id@),
            final(self).finished_at@ == old(self).finished_at@,
    {
        self.ready.remove(client_id);
        self.grouped.remove(client_id);
        self.pending.insert(String::from_str(client_id), Parked { node, since: now });
    }

    /// A client reported its state. Says whether it is the first report since it
    /// connected.
    pub fn reported(&mut self, client_id: &str) -> (first: bool)
        ensures
            final(self).ready@ == old(self).ready@.insert(client_id@),
            first == !old(self).ready@.contains(client_id@),
            final(self).pending@ == old(self).pending@,
            final(self).grouped@ == old(self).grouped@,
            final(self).finished_at@ == old(self).finished_at@,
    {
        self.ready.insert(String::from_str(client_id))
    }

    /// A client is gone. Gives back its output node, where it was known.
    pub fn disconnected(&mut self, client_id: &str) -> (node: Option<String>)
        ensures
            final(self).pending@ == old(self).pending@.remove(client_id@),
            final(self).ready@ == old(self).ready@.remove(client_id@),
            final(self).grouped@ == old(self).grouped@.remove(client_id@),
            final(self).finished_at@ == old(self).finished_at@,
            node == if old(self).pending@.contains_key(client_id@) {
                Some(old(self).pending@[client_id@].node)
            } else {
                None
            },
    {
        self.ready.remove(client_id);
        self.grouped.remove(client_id);
        match self.pending.remove(client_id) {
            Some(p) => Some(p.node),
            None => None,
        }
    }

    /// The clients whose streams are to be started now, in order. `active` holds
    /// the outputs an announcement is playing on or queued for.
    pub fn promotions(&self, policy: StreamPolicy, active: &NameSet, now: u64) -> (r: Vec<String>)
        ensures
            sorted_names(views(r@)),
            forall|id: Seq<char>| #[trigger]
                views(r@).contains(id) <==> promotable(*self, policy, active@, now, id),
    {
        let n: usize = self.pending.len();
        let ghost names = self.pending.names();
        let mut out: Vec<String> = Vec::new();
        let mut i: usize = 0;
        while i < n
            invariant
                n == names.len(),
                names == self.pending.names(),
                n == self.pending.values().len(),
                sorted_names(names),
                forall|j: int|
                    0 <= j < n ==> self.pending@.contains_key(#[trigger] names[j])
                        && self.pending@[names[j]] == self.pending.values()[j],
                i <= n,
                sorted_names(views(out@)),
                forall|id: Seq<char>| #[trigger]
                    views(out@).contains(id) <==> names.take(i as int).contains(id) && promotable(
                        *self,
                        policy,
                        active@,
                        now,
                        id,
                    ),
            decreases n - i,
        {
            let id: String = self.pending.key_at(i).clone();
            let p = self.pending.value_at(i);
            let ghost key = id@;
            let ghost before = views(out@);
            let spoke = self.ready.contains(&id);
            let waited = now >= p.since && now - p.since >= READY_GRACE_MS;
            proof {
                let done = names.take(i as int);
                let next = names.take(i + 1);
                assert(names[i as int] == key);
                lemma_take_next(names, i as int);
                assert forall|j: int| 0 <= j < before.len() implies crate::text::lex_lt(
                    #[trigger] before[j],
                    key,
                ) by {
                    assert(before.contains(before[j]));
                    let m = choose|m: int| 0 <= m < done.len() && done[m] == before[j];
                    assert(crate::text::lex_lt(names[m], names[i as int]));
                }
            }
            if (spoke || waited) && is_wanted(policy, active, &p.node) && !self.grouped.contains(
                &id,
            ) {
                out.push(id);
                proof {
                    assert(views(out@) =~= before.push(key));
                    lemma_push_contains(before, key);
                }
            }
            i += 1;
        }
        proof {
            assert(names.take(i as int) =~= names);
            assert forall|id: Seq<char>| #[trigger] views(out@).contains(id) <==> promotable(
                *self,
                policy,
                active@,
                now,
                id,
            ) by {
                if promotable(*self, policy, active@, now, id) {
                    assert(self.pending@.contains_key(id));
                    assert(names.contains(id));
                }
            }
        }
        out
    }

    /// Notes that the stream to a client was started.
    pub fn promoted(&mut self, client_id: &str)
        ensures
            final(self).grouped@ == old(self).grouped@.insert(client_id@),
            final(self).finished_at@ == old(self).finished_at@.remove(client_id@),
            final(self).pending@ == old(self).pending@,
            final(self).ready@ == old(self).ready@,
    {
        self.finished_at.remove(client_id);
        self.grouped.insert(String::from_str(client_id));
    }

    /// Takes the clients out of their groups whose streams are to be ended now,
    /// and gives them back in order. The drain of a client runs from the first
    /// look that finds nothing to play on it, and is called off by one that does.
    pub fn demote(&mut self, policy: StreamPolicy, active: &NameSet, now: u64) -> (r: Vec<String>)
        ensures
            sorted_names(views(r@)),
            forall|id: Seq<char>| #[trigger]
                views(r@).contains(id) <==> demotable(*old(self), policy, active@, now, id),
            forall|id: Seq<char>| #[trigger]
                final(self).grouped@.contains(id) <==> old(self).grouped@.contains(id)
                    && !demotable(*old(self), policy, active@, now, id),
            forall|id: Seq<char>| #[trigger]
                lookup(final(self).finished_at@, id) == clock_after(
                    *old(self),
                    policy,
                    active@,
                    now,
                    id,
                ),
            final(self).pending@ == old(self).pending@,
            final(self).ready@ == old(self).ready@,
    {
        let ghost m = *self;
        let mut out: Vec<String> = Vec::new();
        match policy {
            StreamPolicy::Always => {
                return out;
            },
            StreamPolicy::WhenAnnounced => {},
        }
        let ids = self.grouped.to_vec();
        let ghost names = views(ids@);
        let mut i: usize = 0;
        while i < ids.len()
            invariant
                m == *old(self),
                policy == StreamPolicy::WhenAnnounced,
                names == views(ids@),
                sorted_names(names),
                forall|k: Seq<char>| #[trigger] names.contains(k) <==> m.grouped@.contains(k),
                self.pending@ == m.pending@,
                self.ready@ == m.ready@,
                i <= ids@.len(),
                sorted_names(views(out@)),
                forall|k: Seq<char>| #[trigger]
                    views(out@).contains(k) <==> names.take(i as int).contains(k) && demotable(
                        m,
                        policy,
                        active@,
                        now,
                        k,
                    ),
                forall|k: Seq<char>| #[trigger]
                    self.grouped@.contains(k) <==> m.grouped@.contains(k) && !(names.take(
                        i as int,
                    ).contains(k) && demotable(m, policy, active@, now, k)),
                forall|k: Seq<char>| #[trigger]
                    lookup(self.finished_at@, k) == if names.take(i as int).contains(k) {
                        clock_after(m, policy, active@, now, k)
                    } else {
                        lookup(m.finished_at@, k)
                    },
            decreases ids.len() - i,
        {
            let ghost key = ids@[i as int]@;
            let ghost done = names.take(i as int);
            let ghost next = names.take(i + 1);
            let ghost before = views(out@);
            let ghost clocks = self.finished_at@;
            proof {
                assert(names[i as int] == key);
                assert(names.contains(key));
                lemma_take_next(names, i as int);
                if done.contains(key) {
                    let j = choose|j: int| 0 <= j < done.len() && done[j] == key;
                    lemma_sorted_unique(names, j, i as int);
                }
                assert(lookup(clocks, key) == lookup(m.finished_at@, key));
                assert forall|j: int| 0 <= j < before.len() implies crate::text::lex_lt(
                    #[trigger] before[j],
                    key,
                ) by {
                    assert(before.contains(before[j]));
                    let q = choose|q: int| 0 <= q < done.len() && done[q] == before[j];
                    assert(crate::text::lex_lt(names[q], names[i as int]));
                }
            }
            let busy: Option<bool> = match self.pending.get(&ids[i]) {
                Some(p) => Some(is_wanted(policy, active, &p.node)),
                None => None,
            };
            match busy {
                None => {},
                Some(true) => {
                    self.finished_at.remove(&ids[i]);
                },
                Some(false) => {
                    let since: u64 = match self.finished_at.get(&ids[i]) {
                        Some(t) => *t,
                        None => now,
                    };
                    if now < since || now - since < ANNOUNCE_DRAIN_MS {
                        self.finished_at.insert(ids[i].clone(), since);
                    } else {
                        self.finished_at.remove(&ids[i]);
                        self.grouped.remove(&ids[i]);
                        let id: String = ids[i].clone();
                        out.push(id);
                        proof {
                            assert(views(out@) =~= before.push(key));
                            lemma_push_contains(before, key);
                        }
                    }
                },
            }
            proof {
                assert forall|k: Seq<char>| k != key implies #[trigger] lookup(self.finished_at@, k)
                    == lookup(clocks, k) by {}
                assert(lookup(self.finished_at@, key) == clock_after(m, policy, active@, now, key));
            }
            i += 1;
        }
        proof {
            assert(names.take(i as int) =~= names);
            assert forall|id: Seq<char>| #[trigger] lookup(self.finished_at@, id) == clock_after(
                m,
                policy,
                active@,
                now,
                id,
            ) by {
                if !names.contains(id) {
                    assert(!m.grouped@.contains(id));
                }
            }
        }
        out
    }
}

/// No stream is started to a client that has neither reported its state since it
/// connected nor been given the grace period.
pub proof fn law_no_stream_before_the_device_speaks(
    m: Membership,
    policy: StreamPolicy,
    active: Set<Seq<char>>,
    now: u64,
    id: Seq<char>,
)
    requires
        m.pending@.contains_key(id),
        !m.ready@.contains(id),
        now - m.pending@[id].since < READY_GRACE_MS,
    ensures
        !promotable(m, policy, active, now, id),
{
}

/// An idle device is streamed to only while an announcement needs it.
pub proof fn law_idle_devices_carry_no_audio(
    m: Membership,
    active: Set<Seq<char>>,
    now: u64,
    id: Seq<char>,
)
    requires
        m.pending@.contains_key(id),
        !active.contains(m.pending@[id].node@),
    ensures
        !promotable(m, StreamPolicy::WhenAnnounced, active, now, id),
{
}

/// A device of a playing group is never taken out of its group by this.
pub proof fn law_playing_devices_stay(
    m: Membership,
    active: Set<Seq<char>>,
    now: u64,
    id: Seq<char>,
)
    ensures
        !demotable(m, StreamPolicy::Always, active, now, id),
{
}

/// No stream is ended before its drain is over: a device whose announcement is
/// found to have ended just now keeps its stream.
pub proof fn law_a_stream_outlives_its_announcement(
    m: Membership,
    policy: StreamPolicy,
    active: Set<Seq<char>>,
    now: u64,
    id: Seq<char>,
)
    requires
        !m.finished_at@.contains_key(id),
    ensures
        !demotable(m, policy, active, now, id),
{
}

/// A stream to a connected client is started exactly where it has reported its state
/// or been silent for the grace period, has no stream yet, and has something to play:
/// always in a playing group, else while an announcement is on for its output.
pub proof fn law_a_settled_device_is_streamed_to(
    m: Membership,
    active: Set<Seq<char>>,
    now: u64,
    id: Seq<char>,
)
    ensures
        ({
            let settled = m.ready@.contains(id) || now - m.pending@[id].since >= 3000;
            let waits = m.pending@.contains_key(id) && !m.grouped@.contains(id) && settled;
            &&& promotable(m, StreamPolicy::Always, active, now, id) <==> waits
            &&& promotable(m, StreamPolicy::WhenAnnounced, active, now, id) <==> waits
                && active.contains(m.pending@[id].node@)
        }),
{
}

/// A stream that is there for an announcement drains: the first look that finds
/// nothing to play on it starts the clock, a later one ends it exactly where the
/// drain is over by then, and one that finds something to play in between starts the
/// drain anew.
pub proof fn law_a_stream_drains_before_it_ends(
    m: Membership,
    first: u64,
    between: Membership,
    active: Set<Seq<char>>,
    later: u64,
    id: Seq<char>,
)
    requires
        m.grouped@.contains(id),
        m.pending@.contains_key(id),
        !m.finished_at@.contains_key(id),
        !active.contains(m.pending@[id].node@),
        between.grouped@ == m.grouped@,
        between.pending@ == m.pending@,
        lookup(between.finished_at@, id) == clock_after(
            m,
            StreamPolicy::WhenAnnounced,
            active,
            first,
            id,
        ),
    ensures
        !demotable(m, StreamPolicy::WhenAnnounced, active, first, id),
        demotable(between, StreamPolicy::WhenAnnounced, active, later, id) <==> later - first
            >= 1500,
        forall|busy: Set<Seq<char>>|
            busy.contains(m.pending@[id].node@) ==> !#[trigger] demotable(
                between,
                StreamPolicy::WhenAnnounced,
                busy,
                later,
                id,
            ) && clock_after(between, StreamPolicy::WhenAnnounced, busy, later, id) is None,
{
    assert(between.finished_at@.contains_key(id) && between.finished_at@[id] == first);
}

/// A look leaves the clock of a client that is in no group, or that is not connected,
/// as it was.
pub proof fn law_other_clocks_run_on(
    m: Membership,
    policy: StreamPolicy,
    active: Set<Seq<char>>,
    now: u64,
    id: Seq<char>,
)
    requires
        !m.grouped@.contains(id) || !m.pending@.contains_key(id) || policy == StreamPolicy::Always,
    ensures
        clock_after(m, policy, active, now, id) == lookup(m.finished_at@, id),
        !demotable(m, policy, active, now, id),
        m.finished_at@.contains_key(id) ==> lookup(m.finished_at@, id) == Some(m.finished_at@[id]),
        !m.finished_at@.contains_key(id) ==> lookup(m.finished_at@, id) is None,
{
}

} // verus!
