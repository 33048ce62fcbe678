//! The senders to the remote hosts of a group: which sessions are advertised, what
//! each host is fed, and what is said of hosts that lose audio.

use crate::bytes::{sample_values, samples_from_le, samples_of};
use crate::maps::lemma_push_contains;
use crate::names::{session_name, session_name_for};
use crate::reconciler::PwSinkMember;
use crate::targets::{PwSinkLiveness, PwSinkStatus};
use crate::text::{decimal, join, join_spec, push_decimal, views};
use vstd::prelude::*;

verus! {

/// How many captured chunks wait for one sender at most.
pub const PCM_FEED_DEPTH: usize = 8;

/// How often lost audio is reported, in milliseconds.
pub const DROP_REPORT_MS: u64 = 5000;

/// What the session for one host is started with. Its data port is the one above its
/// control port.
pub struct SessionPlan {
    pub node_name: String,
    pub session_name: String,
    pub control_port: u16,
    pub playout_ms: u16,
}

/// The plan is the one for this host.
pub open spec fn plans(p: SessionPlan, m: PwSinkMember) -> bool {
    p.node_name@ == m.node_name@ && p.session_name@ == session_name(m.node_name@) && p.control_port
        == m.control_port && p.playout_ms == m.playout_ms
}

/// The sessions for the hosts of a group: one for each, so that an announcement can
/// play on one of them alone.
pub fn session_plans(members: &Vec<PwSinkMember>) -> (r: Result<Vec<SessionPlan>, String>)
    ensures
        match r {
            Ok(p) => members@.len() > 0 && p@.len() == members@.len() && forall|i: int|
                0 <= i < p@.len() ==> plans(#[trigger] p@[i], members@[i]),
            Err(e) => members@.len() == 0 && e@
                == "pwsink_server::start called with no members"@,
        },
{
    if members.len() == 0 {
        return Err(String::from_str("pwsink_server::start called with no members"));
    }
    let mut out: Vec<SessionPlan> = Vec::new();
    let mut i: usize = 0;
    while i < members.len()
        invariant
            i <= members@.len(),
            out@.len() == i,
            forall|j: int| 0 <= j < i ==> plans(#[trigger] out@[j], members@[j]),
        decreases members.len() - i,
    {
        let m = &members[i];
        out.push(
            SessionPlan {
                node_name: m.node_name.clone(),
                session_name: session_name_for(&m.node_name),
                control_port: m.control_port,
                playout_ms: m.playout_ms,
            },
        );
        i += 1;
    }
    Ok(out)
}

/// The names of the hosts whose sender started, in order.
pub open spec fn started_names(plans: Seq<SessionPlan>, started: Seq<bool>, n: int) -> Seq<
    Seq<char>,
>
    decreases
            if n > 0 {
                n
            } else {
                0
            },
{
    if n <= 0 {
        Seq::empty()
    } else {
        let rest = started_names(plans, started, n - 1);
        if started[n - 1] {
            rest.push(plans[n - 1].node_name@)
        } else {
            rest
        }
    }
}

// ---- the relay ---------------------------------------------------------------------------

/// The relay of captured audio to the hosts of a group.
pub struct HostRelay {
    /// The hosts that are fed.
    pub names: Vec<String>,
    /// How many chunks each of them has lost since the last report.
    pub dropped: Vec<u32>,
}

/// What is said of the first `n` hosts that lost audio.
pub open spec fn drop_lines(names: Seq<Seq<char>>, dropped: Seq<u32>, n: int) -> Seq<Seq<char>>
    decreases
            if n > 0 {
                n
            } else {
                0
            },
{
    if n <= 0 {
        Seq::empty()
    } else {
        let rest = drop_lines(names, dropped, n - 1);
        if dropped[n - 1] > 0 {
            rest.push(names[n - 1] + ": "@ + decimal(dropped[n - 1] as int))
        } else {
            rest
        }
    }
}

/// Some host lost audio.
pub open spec fn any_lost(dropped: Seq<u32>) -> bool {
    exists|i: int| 0 <= i < dropped.len() && #[trigger] dropped[i] > 0
}

/// No host lost audio.
pub open spec fn none_lost(dropped: Seq<u32>) -> bool {
    forall|i: int| 0 <= i < dropped.len() ==> #[trigger] dropped[i] == 0
}

impl HostRelay {
    /// There is one count for each host.
    pub open spec fn wf(self) -> bool {
        self.names@.len() == self.dropped@.len()
    }

    /// The relay to the hosts whose sender started. Where none did there is nothing to
    /// relay to.
    pub fn new(plans: &Vec<SessionPlan>, started: &Vec<bool>) -> (r: Result<Self, String>)
        requires
            plans@.len() == started@.len(),
        ensures
            match r {
                Ok(h) => h.wf() && h.names@.len() > 0 && views(h.names@) == started_names(
                    plans@,
                    started@,
                    plans@.len() as int,
                ) && none_lost(h.dropped@),
                Err(e) => started_names(plans@, started@, plans@.len() as int).len() == 0 && e@
                    == "pw-sink group: no senders started"@,
            },
    {
        let mut names: Vec<String> = Vec::new();
        let mut dropped: Vec<u32> = Vec::new();
        let mut i: usize = 0;
        assert(views(names@) =~= Seq::<Seq<char>>::empty());
        while i < plans.len()
            invariant
                i <= plans@.len(),
                plans@.len() == started@.len(),
                names@.len() == dropped@.len(),
                none_lost(dropped@),
                views(names@) == started_names(plans@, started@, i as int),
            decreases plans.len() - i,
        {
            let ghost before = views(names@);
            if started[i] {
                names.push(plans[i].node_name.clone());
                dropped.push(0);
                assert(views(names@) =~= before.push(plans@[i as int].node_name@));
            }
            i += 1;
        }
        if names.len() == 0 {
            return Err(String::from_str("pw-sink group: no senders started"));
        }
        Ok(HostRelay { names, dropped })
    }

    /// The samples a host is fed: those of the chunk, or of what an announcement makes
    /// of it.
    pub fn chunk_for(chunk: &[u8], overlay: Option<&[u8]>) -> (r: Vec<i16>)
        ensures
            sample_values(r@) == samples_of(
                match overlay {
                    Some(o) => o@,
                    None => chunk@,
                },
            ),
    {
        match overlay {
            Some(o) => samples_from_le(o),
            None => samples_from_le(chunk),
        }
    }

    /// Notes that the queue of a host was full. Nobody else is held up.
    pub fn note_dropped(&mut self, index: usize)
        requires
            old(self).wf(),
            index < old(self).names@.len(),
            old(self).dropped@[index as int] < u32::MAX,
        ensures
            final(self).wf(),
            final(self).names == old(self).names,
            final(self).dropped@ == old(self).dropped@.update(
                index as int,
                (old(self).dropped@[index as int] + 1) as u32,
            ),
    {
        let n: u32 = self.dropped[index];
        self.dropped.set(index, n + 1);
    }

    /// What is to be reported: the hosts that lost audio, in order, where some did and
    /// the last report is long enough ago. Counting starts anew then.
    pub fn report(&mut self, elapsed_ms: u64) -> (r: Option<String>)
        requires
            old(self).wf(),
        ensures
            final(self).wf(),
            final(self).names == old(self).names,
            r is Some <==> any_lost(old(self).dropped@) && elapsed_ms >= DROP_REPORT_MS,
            r matches Some(s) ==> s@ == join_spec(
                drop_lines(
                    views(old(self).names@),
                    old(self).dropped@,
                    old(self).names@.len() as int,
                ),
                ", "@,
            ) && none_lost(final(self).dropped@),
            r is None ==> final(self).dropped@ == old(self).dropped@,
            elapsed_ms < 5000 ==> r is None,
    {
        let ghost names = views(self.names@);
        let ghost dropped = self.dropped@;
        let mut lines: Vec<String> = Vec::new();
        let mut zeros: Vec<u32> = Vec::new();
        let mut lost = false;
        let mut i: usize = 0;
        assert(views(lines@) =~= Seq::<Seq<char>>::empty());
        while i < self.names.len()
            invariant
                i <= self.names@.len(),
                self.wf(),
                self.names == old(self).names,
                self.dropped == old(self).dropped,
                names == views(self.names@),
                dropped == self.dropped@,
                zeros@.len() == i,
                none_lost(zeros@),
                lost == (exists|j: int| 0 <= j < i && #[trigger] dropped[j] > 0),
                views(lines@) == drop_lines(names, dropped, i as int),
            decreases self.names.len() - i,
        {
            let count: u32 = self.dropped[i];
            if count > 0 {
                lost = true;
                let mut line: String = self.names[i].clone();
                line.append(": ");
                push_decimal(&mut line, count as u64);
                let ghost text = line@;
                let ghost before = views(lines@);
                lines.push(line);
                assert(text =~= names[i as int] + ": "@ + decimal(count as int));
                assert(views(lines@) =~= before.push(text));
            }
            zeros.push(0);
            i += 1;
        }
        if lost && elapsed_ms >= DROP_REPORT_MS {
            self.dropped = zeros;
            Some(join(&lines, ", "))
        } else {
            None
        }
    }
}

// ---- liveness ---------------------------------------------------------------------------------

/// The handshakes once the first `n` of these are published: what a sender says, and
/// nothing for one that is gone.
pub open spec fn published(
    before: Map<Seq<char>, PwSinkStatus>,
    seen: Seq<(String, Option<PwSinkStatus>)>,
    n: int,
) -> Map<Seq<char>, PwSinkStatus>
    decreases
            if n > 0 {
                n
            } else {
                0
            },
{
    if n <= 0 {
        before
    } else {
        let rest = published(before, seen, n - 1);
        match seen[n - 1].1 {
            Some(s) => rest.insert(seen[n - 1].0@, s),
            None => rest.remove(seen[n - 1].0@),
        }
    }
}

/// Publishes what the senders of a group say of their handshakes. The first result
/// says whether any sender is left, the second whether listeners have to hear of a
/// change.
pub fn publish_statuses(
    liveness: &mut PwSinkLiveness,
    seen: &Vec<(String, Option<PwSinkStatus>)>,
) -> (r: (bool, bool))
    ensures
        final(liveness).map@ == published(old(liveness).map@, seen@, seen@.len() as int),
        r.0 == (exists|i: int| 0 <= i < seen@.len() && (#[trigger] seen@[i]).1 is Some),
        r.1 == (exists|i: int|
            0 <= i < seen@.len() && #[trigger] is_change(
                published(old(liveness).map@, seen@, i),
                seen@[i],
            )),
{
    let ghost before = liveness.map@;
    let mut alive = false;
    let mut notify = false;
    let mut i: usize = 0;
    while i < seen.len()
        invariant
            i <= seen@.len(),
            before == old(liveness).map@,
            liveness.map@ == published(before, seen@, i as int),
            alive == (exists|j: int| 0 <= j < i && (#[trigger] seen@[j]).1 is Some),
            notify == (exists|j: int|
                0 <= j < i && #[trigger] is_change(published(before, seen@, j), seen@[j])),
        decreases seen.len() - i,
    {
        let ghost mid = liveness.map@;
        assert(mid == published(before, seen@, i as int));
        let changed = match seen[i].1 {
            Some(s) => {
                alive = true;
                liveness.set(&seen[i].0, s)
            },
            None => liveness.remove(&seen[i].0),
        };
        assert(changed == is_change(published(before, seen@, i as int), seen@[i as int]));
        if changed {
            notify = true;
        }
        i += 1;
    }
    (alive, notify)
}

/// Publishing this is something listeners have to hear of: whether audio reaches a
/// host is not what it was.
pub open spec fn is_change(
    m: Map<Seq<char>, PwSinkStatus>,
    seen: (String, Option<PwSinkStatus>),
) -> bool {
    let known = m.contains_key(seen.0@);
    match seen.1 {
        Some(s) => !(known && m[seen.0@].established == s.established),
        None => known && m[seen.0@].established,
    }
}

/// The session of a host is started for that host, under the name it is told to
/// receive, with its own port and delay.
pub proof fn law_a_session_is_its_hosts_own(p: SessionPlan, m: PwSinkMember)
    requires
        plans(p, m),
    ensures
        p.node_name@ == m.node_name@,
        p.control_port == m.control_port,
        p.playout_ms == m.playout_ms,
        p.session_name@ == session_name(m.node_name@),
{
}

/// The hosts that are relayed to are those whose sender started, in order.
pub proof fn law_started_hosts_are_relayed_to(
    plans: Seq<SessionPlan>,
    started: Seq<bool>,
    n: int,
    name: Seq<char>,
)
    requires
        0 <= n <= plans.len(),
        plans.len() == started.len(),
    ensures
        started_names(plans, started, n).contains(name) <==> exists|i: int|
            0 <= i < n && started[i] && (#[trigger] plans[i]).node_name@ == name,
        started_names(plans, started, n).len() <= n,
        (forall|i: int| 0 <= i < n ==> #[trigger] started[i]) ==> started_names(
            plans,
            started,
            n,
        ).len() == n,
    decreases n,
{
    if n > 0 {
        law_started_hosts_are_relayed_to(plans, started, n - 1, name);
        let before = started_names(plans, started, n - 1);
        lemma_push_contains(before, plans[n - 1].node_name@);
        if before.contains(name) {
            let i = choose|i: int|
                0 <= i < n - 1 && started[i] && (#[trigger] plans[i]).node_name@ == name;
            assert(0 <= i < n);
        }
        if exists|i: int| 0 <= i < n && started[i] && (#[trigger] plans[i]).node_name@ == name {
            let i = choose|i: int|
                0 <= i < n && started[i] && (#[trigger] plans[i]).node_name@ == name;
            assert(i < n - 1 || i == n - 1);
        }
    }
}

/// Every host that lost audio is reported with how much, and no other is.
pub proof fn law_every_loss_is_reported(
    names: Seq<Seq<char>>,
    dropped: Seq<u32>,
    n: int,
    line: Seq<char>,
)
    requires
        0 <= n <= names.len(),
        names.len() == dropped.len(),
    ensures
        drop_lines(names, dropped, n).contains(line) <==> exists|i: int|
            0 <= i < n && dropped[i] > 0 && line == #[trigger] names[i] + ": "@ + decimal(
                dropped[i] as int,
            ),
    decreases n,
{
    if n > 0 {
        law_every_loss_is_reported(names, dropped, n - 1, line);
        let before = drop_lines(names, dropped, n - 1);
        lemma_push_contains(before, names[n - 1] + ": "@ + decimal(dropped[n - 1] as int));
        if before.contains(line) {
            let i = choose|i: int|
                0 <= i < n - 1 && dropped[i] > 0 && line == #[trigger] names[i] + ": "@ + decimal(
                    dropped[i] as int,
                );
            assert(0 <= i < n);
        }
        if exists|i: int|
            0 <= i < n && dropped[i] > 0 && line == #[trigger] names[i] + ": "@ + decimal(
                dropped[i] as int,
            ) {
            let i = choose|i: int|
                0 <= i < n && dropped[i] > 0 && line == #[trigger] names[i] + ": "@ + decimal(
                    dropped[i] as int,
                );
            assert(i < n - 1 || i == n - 1);
        }
    }
}

/// What the last sender of a name says is what is known of its handshake; nothing is
/// known of one that is gone, and what no sender speaks of stays.
pub proof fn law_the_last_word_on_a_handshake_counts(
    before: Map<Seq<char>, PwSinkStatus>,
    seen: Seq<(String, Option<PwSinkStatus>)>,
    n: int,
    name: Seq<char>,
)
    requires
        0 <= n <= seen.len(),
    ensures
        forall|i: int|
            0 <= i < n && (#[trigger] seen[i]).0@ == name && (forall|j: int|
                i < j < n ==> (#[trigger] seen[j]).0@ != name) ==> {
                let known = published(before, seen, n);
                &&& seen[i].1 matches Some(s) ==> known.contains_key(name) && known[name] == s
                &&& seen[i].1 is None ==> !known.contains_key(name)
            },
        (forall|j: int| 0 <= j < n ==> (#[trigger] seen[j]).0@ != name) ==> {
            let known = published(before, seen, n);
            known.contains_key(name) == before.contains_key(name) && known[name] == before[name]
        },
    decreases n,
{
    if n > 0 {
        law_the_last_word_on_a_handshake_counts(before, seen, n - 1, name);
        let known = published(before, seen, n);
        assert forall|i: int|
            0 <= i < n && (#[trigger] seen[i]).0@ == name && (forall|j: int|
                i < j < n ==> (#[trigger] seen[j]).0@ != name) implies {
            &&& seen[i].1 matches Some(s) ==> known.contains_key(name) && known[name] == s
            &&& seen[i].1 is None ==> !known.contains_key(name)
        } by {
            if i < n - 1 {
                assert(seen[n - 1].0@ != name);
            }
        }
    }
}

/// Listeners hear of a handshake exactly where a receiver attached or left, or a
/// sender is new; how many are attached is no news by itself.
pub proof fn law_attaching_and_leaving_is_news(
    m: Map<Seq<char>, PwSinkStatus>,
    name: String,
    s: PwSinkStatus,
)
    ensures
        !m.contains_key(name@) ==> is_change(m, (name, Some(s))) && !is_change(m, (name, None)),
        m.contains_key(name@) ==> (is_change(m, (name, Some(s))) <==> m[name@].established
            != s.established) && (is_change(m, (name, None)) <==> m[name@].established),
{
}

} // verus!
