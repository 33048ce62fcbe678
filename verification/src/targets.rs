//! Remote PipeWire hosts as mDNS shows them, their demotion once their advert is
//! gone, and which of them a receiver is attached to.

use crate::devices::Ip;
use crate::maps::{lemma_sorted_unique, sorted_names, NameMap, NameSet};
use crate::names::{is_own_advert, own_advert, slug, target_node_name, PWSINK_DEV_PREFIX, PWSINK_SESSION_PREFIX, SPIKE_SESSION_NAME};
use crate::text::{before_first, before_first_spec, same, trim, trimmed, views};
use vstd::prelude::*;

verus! {

/// A discovered host. Times are in milliseconds.
pub struct PwTarget {
    pub fullname: String,
    pub display_name: String,
    pub addr: Option<Ip>,
    /// Whether it can be reached, as far as its adverts say.
    pub present: bool,
    /// Since when its advert is gone; `None` while it is advertised.
    pub withdrawn_since: Option<u64>,
}

/// How long an advert may be gone before the host counts as offline.
pub const WITHDRAWN_GRACE_MS: u64 = 45000;

/// How long an advert may be gone before the host is dropped.
pub const REMOVE_AFTER_MS: u64 = 300000;

/// What to do with one host.
#[derive(Clone, Copy, Debug, PartialEq, Eq, Structural)]
pub enum Verdict {
    /// Leave it as it is.
    Keep,
    /// Set whether it is present; only where that changes something.
    SetPresent(bool),
    /// Drop it.
    Remove,
}

/// What to do with one host, from whether it counts as present, whether a
/// receiver is attached, and for how long its advert has been gone.
pub open spec fn verdict_spec(present: bool, established: bool, withdrawn_for: Option<u64>) -> Verdict {
    if established || withdrawn_for is None {
        if present {
            Verdict::Keep
        } else {
            Verdict::SetPresent(true)
        }
    } else if withdrawn_for->0 >= REMOVE_AFTER_MS {
        Verdict::Remove
    } else if withdrawn_for->0 >= WITHDRAWN_GRACE_MS && present {
        Verdict::SetPresent(false)
    } else {
        Verdict::Keep
    }
}

/// What to do with one host. An attached receiver outranks the advert.
pub fn verdict(present: bool, established: bool, withdrawn_for: Option<u64>) -> (r: Verdict)
    ensures
        r == verdict_spec(present, established, withdrawn_for),
{
    if established {
        return if present {
            Verdict::Keep
        } else {
            Verdict::SetPresent(true)
        };
    }
    let gone: u64 = match withdrawn_for {
        Some(g) => g,
        None => {
            return if present {
                Verdict::Keep
            } else {
                Verdict::SetPresent(true)
            };
        },
    };
    if gone >= REMOVE_AFTER_MS {
        return Verdict::Remove;
    }
    if gone >= WITHDRAWN_GRACE_MS && present {
        return Verdict::SetPresent(false);
    }
    Verdict::Keep
}

/// A host with an attached receiver is never demoted and never dropped, however
/// long its advert has been gone.
pub proof fn law_streaming_targets_stay(present: bool, withdrawn_for: Option<u64>)
    ensures
        verdict_spec(present, true, withdrawn_for) != Verdict::SetPresent(false),
        verdict_spec(present, true, withdrawn_for) != Verdict::Remove,
{
}

/// A verdict that sets the presence always changes it, and the same verdict is
/// not given twice in a row.
pub proof fn law_verdicts_settle(present: bool, established: bool, withdrawn_for: Option<u64>)
    ensures
        verdict_spec(present, established, withdrawn_for) matches Verdict::SetPresent(p) ==> p
            != present && verdict_spec(p, established, withdrawn_for) == Verdict::Keep,
{
}

/// For how long the advert of a host has been gone.
pub open spec fn gone_for(t: PwTarget, now: u64) -> Option<u64> {
    match t.withdrawn_since {
        Some(since) => Some(
            if now >= since {
                (now - since) as u64
            } else {
                0
            },
        ),
        None => None,
    }
}

/// The verdict on a registered host.
pub open spec fn target_verdict(t: PwTarget, established: bool, now: u64) -> Verdict {
    verdict_spec(t.present, established, gone_for(t, now))
}

/// A host after the verdict on it.
pub open spec fn judged(t: PwTarget, v: Verdict) -> PwTarget {
    match v {
        Verdict::SetPresent(p) => PwTarget { present: p, ..t },
        _ => t,
    }
}

/// Judges every host. `established` holds the hosts a receiver is attached to.
/// Says whether anything changed.
pub fn judge_targets(targets: &mut NameMap<PwTarget>, established: &NameSet, now: u64) -> (notify:
    bool)
    ensures
        forall|k: Seq<char>| #[trigger]
            final(targets)@.contains_key(k) <==> old(targets)@.contains_key(k) && target_verdict(
                old(targets)@[k],
                established@.contains(k),
                now,
            ) != Verdict::Remove,
        forall|k: Seq<char>| #[trigger]
            final(targets)@.contains_key(k) ==> final(targets)@[k] == judged(
                old(targets)@[k],
                target_verdict(old(targets)@[k], established@.contains(k), now),
            ),
        notify <==> exists|k: Seq<char>| #[trigger]
            old(targets)@.contains_key(k) && target_verdict(
                old(targets)@[k],
                established@.contains(k),
                now,
            ) != Verdict::Keep,
{
    let ghost before = targets@;
    let keys = targets.keys();
    let ghost names = views(keys@);
    let mut notify = false;
    let mut i: usize = 0;
    while i < keys.len()
        invariant
            before == old(targets)@,
            names == views(keys@),
            sorted_names(names),
            forall|k: Seq<char>| before.contains_key(k) <==> names.contains(k),
            i <= keys@.len(),
            forall|k: Seq<char>|
                #![trigger targets@.contains_key(k)]
                !names.take(i as int).contains(k) ==> (targets@.contains_key(k)
                    <==> before.contains_key(k)) && (before.contains_key(k) ==> targets@[k]
                    == before[k]),
            forall|k: Seq<char>|
                #![trigger targets@.contains_key(k)]
                names.take(i as int).contains(k) ==> (targets@.contains_key(k) <==> target_verdict(
                    before[k],
                    established@.contains(k),
                    now,
                ) != Verdict::Remove) && (targets@.contains_key(k) ==> targets@[k] == judged(
                    before[k],
                    target_verdict(before[k], established@.contains(k), now),
                )),
            notify <==> exists|j: int|
                0 <= j < i && target_verdict(
                    before[#[trigger] names[j]],
                    established@.contains(names[j]),
                    now,
                ) != Verdict::Keep,
        decreases keys.len() - i,
    {
        let ghost key = keys@[i as int]@;
        let ghost mid = targets@;
        let ghost done = names.take(i as int);
        let ghost next = names.take(i + 1);
        proof {
            assert(names[i as int] == key);
            assert(names.contains(key));
            assert forall|k: Seq<char>| next.contains(k) <==> done.contains(k) || k == key by {
                if done.contains(k) {
                    let j = choose|j: int| 0 <= j < done.len() && done[j] == k;
                    assert(next[j] == k);
                }
                assert(next[i as int] == key);
                if next.contains(k) {
                    let j = choose|j: int| 0 <= j < next.len() && next[j] == k;
                    if j < i {
                        assert(done[j] == k);
                    }
                }
            }
            if done.contains(key) {
                let j = choose|j: int| 0 <= j < done.len() && done[j] == key;
                lemma_sorted_unique(names, j, i as int);
            }
            assert(targets@.contains_key(key));
        }
        let attached = established.contains(&keys[i]);
        match targets.remove(&keys[i]) {
            Some(mut t) => {
                let withdrawn_for: Option<u64> = match t.withdrawn_since {
                    Some(since) => Some(now.saturating_sub(since)),
                    None => None,
                };
                match verdict(t.present, attached, withdrawn_for) {
                    Verdict::Keep => {
                        targets.insert(keys[i].clone(), t);
                    },
                    Verdict::SetPresent(p) => {
                        t.present = p;
                        targets.insert(keys[i].clone(), t);
                        notify = true;
                    },
                    Verdict::Remove => {
                        notify = true;
                    },
                }
                proof {
                    assert forall|k: Seq<char>| k != key implies (targets@.contains_key(k)
                        <==> mid.contains_key(k)) && (mid.contains_key(k) ==> targets@[k] == mid[k]) by {}
                }
            },
            None => {},
        }
        i += 1;
    }
    proof {
        assert(names.take(i as int) =~= names);
        assert(notify <==> exists|k: Seq<char>| #[trigger]
            before.contains_key(k) && target_verdict(before[k], established@.contains(k), now)
                != Verdict::Keep) by {
            if notify {
                let j = choose|j: int|
                    0 <= j < i && target_verdict(
                        before[#[trigger] names[j]],
                        established@.contains(names[j]),
                        now,
                    ) != Verdict::Keep;
                assert(names.contains(names[j]));
                assert(before.contains_key(names[j]));
            }
            if exists|k: Seq<char>| #[trigger]
                before.contains_key(k) && target_verdict(before[k], established@.contains(k), now)
                    != Verdict::Keep {
                let k = choose|k: Seq<char>| #[trigger]
                    before.contains_key(k) && target_verdict(
                        before[k],
                        established@.contains(k),
                        now,
                    ) != Verdict::Keep;
                assert(names.contains(k));
                let j = choose|j: int| 0 <= j < names.len() && names[j] == k;
                assert(names[j] == k);
            }
        }
    }
    notify
}

// ---- discovery ---------------------------------------------------------------

/// The label of a session, from its mDNS instance name.
pub fn session_label(fullname: &str) -> (r: String)
    ensures
        r@ == trimmed(before_first_spec(fullname@, "._pipewire-audio._udp"@)),
{
    let label = before_first(fullname, "._pipewire-audio._udp");
    trim(&label)
}

/// Whether a resolved session is a host to offer: it has a label, and is none of
/// the sessions this daemon advertises itself.
pub open spec fn is_target(label: Seq<char>) -> bool {
    label.len() > 0 && !own_advert(label)
}

/// Takes a resolved session in, and says whether anybody has to hear of it: a new
/// host, or one that was offline. Our own sessions are passed over.
pub fn note_resolved(
    targets: &mut NameMap<PwTarget>,
    label: String,
    fullname: String,
    addr: Option<Ip>,
) -> (notify: bool)
    ensures
        !is_target(label@) ==> !notify && final(targets)@ == old(targets)@,
        is_target(label@) ==> {
            let node = PWSINK_DEV_PREFIX@ + slug(label@);
            let new = final(targets)@[node];
            &&& final(targets)@.dom() == old(targets)@.dom().insert(node)
            &&& final(targets)@.remove(node) == old(targets)@.remove(node)
            &&& new.present
            &&& new.withdrawn_since is None
            &&& new.fullname == fullname
            &&& if old(targets)@.contains_key(node) {
                let was = old(targets)@[node];
                &&& notify == !was.present
                &&& new.display_name == was.display_name
                &&& new.addr == if addr is Some {
                    addr
                } else {
                    was.addr
                }
            } else {
                &&& notify
                &&& new.display_name == label
                &&& new.addr == addr
            }
        },
{
    if label.as_str().is_empty() || is_own_advert(&label) {
        return false;
    }
    let node = target_node_name(&label);
    let ghost key = node@;
    let ghost before = targets@;
    match targets.remove(&node) {
        Some(was) => {
            let came_online = !was.present;
            targets.insert(
                node,
                PwTarget {
                    fullname,
                    display_name: was.display_name,
                    addr: if addr.is_some() {
                        addr
                    } else {
                        was.addr
                    },
                    present: true,
                    withdrawn_since: None,
                },
            );
            proof {
                assert(targets@.dom() =~= before.dom().insert(key));
                assert(targets@.remove(key) =~= before.remove(key));
            }
            came_online
        },
        None => {
            targets.insert(
                node,
                PwTarget { fullname, display_name: label, addr, present: true, withdrawn_since: None },
            );
            proof {
                assert(targets@.dom() =~= before.dom().insert(key));
                assert(targets@.remove(key) =~= before.remove(key));
            }
            true
        },
    }
}

/// `k` is the first host, in order, that has this instance name.
pub open spec fn is_first_named(m: Map<Seq<char>, PwTarget>, fullname: Seq<char>, k: Seq<char>) -> bool {
    &&& m.contains_key(k)
    &&& m[k].fullname@ == fullname
    &&& forall|j: Seq<char>| #[trigger]
        m.contains_key(j) && m[j].fullname@ == fullname ==> j == k || crate::text::lex_lt(k, j)
}

/// A host whose advert is gone: since now, or since earlier.
pub open spec fn withdrawn(t: PwTarget, now: u64) -> PwTarget {
    PwTarget {
        withdrawn_since: Some(
            match t.withdrawn_since {
                Some(since) => since,
                None => now,
            },
        ),
        ..t
    }
}

/// Notes that the advert `fullname` is gone. Only the time is noted, on the first
/// host with that name and only where none is noted yet: whether the host is
/// offline is judged later.
pub fn note_withdrawn(targets: &mut NameMap<PwTarget>, fullname: &str, now: u64)
    ensures
        (forall|k: Seq<char>| !is_first_named(old(targets)@, fullname@, k)) ==> final(targets)@
            == old(targets)@,
        forall|k: Seq<char>| #[trigger]
            is_first_named(old(targets)@, fullname@, k) ==> final(targets)@ == old(targets)@.insert(
                k,
                withdrawn(old(targets)@[k], now),
            ),
{
    let ghost before = targets@;
    let n: usize = targets.len();
    let ghost names = targets.names();
    let mut i: usize = 0;
    while i < n
        invariant
            n == names.len(),
            names == targets.names(),
            n == targets.values().len(),
            sorted_names(names),
            before == targets@,
            before == old(targets)@,
            forall|j: int|
                0 <= j < n ==> before.contains_key(#[trigger] names[j]) && before[names[j]]
                    == targets.values()[j],
            i <= n,
            forall|j: int| 0 <= j < i ==> before[#[trigger] names[j]].fullname@ != fullname@,
        decreases n - i,
    {
        if same(&targets.value_at(i).fullname, fullname) {
            let key: String = targets.key_at(i).clone();
            let ghost k0 = key@;
            proof {
                assert(names[i as int] == k0);
                assert forall|j: Seq<char>| #[trigger]
                    before.contains_key(j) && before[j].fullname@ == fullname@ implies j == k0
                    || crate::text::lex_lt(k0, j) by {
                    assert(names.contains(j));
                    let m = choose|m: int| 0 <= m < names.len() && names[m] == j;
                    if m < i {
                        assert(before[names[m]].fullname@ != fullname@);
                    } else if m > i {
                        assert(crate::text::lex_lt(names[i as int], names[m]));
                    }
                }
            }
            match targets.remove(&key) {
                Some(mut t) => {
                    if t.withdrawn_since.is_none() {
                        t.withdrawn_since = Some(now);
                    }
                    targets.insert(key, t);
                    proof {
                        assert(targets@ =~= before.insert(k0, withdrawn(before[k0], now)));
                        assert(is_first_named(before, fullname@, k0));
                        assert forall|k: Seq<char>| #[trigger]
                            is_first_named(before, fullname@, k) implies k == k0 by {
                            if k != k0 {
                                assert(before.contains_key(k0));
                                crate::text::lemma_lex_asymmetric(k, k0);
                            }
                        }
                    }
                },
                None => {},
            }
            return;
        }
        i += 1;
    }
    proof {
        assert forall|k: Seq<char>| #[trigger] before.contains_key(k) implies before[k].fullname@
            != fullname@ by {
            assert(names.contains(k));
            let m = choose|m: int| 0 <= m < names.len() && names[m] == k;
            assert(before[names[m]].fullname@ != fullname@);
        }
    }
}

// ---- attached receivers ------------------------------------------------------

/// The handshake of one target.
#[derive(Clone, Copy, Debug, PartialEq, Eq, Structural)]
pub struct PwSinkStatus {
    /// A receiver has completed the handshake and is streamed to.
    pub established: bool,
    /// How many receivers are attached.
    pub peer_count: usize,
}

/// The handshake of every target a sender is running for.
pub struct PwSinkLiveness {
    pub map: NameMap<PwSinkStatus>,
}

impl PwSinkLiveness {
    pub fn new() -> (r: Self)
        ensures
            r.map@ == Map::<Seq<char>, PwSinkStatus>::empty(),
    {
        PwSinkLiveness { map: NameMap::new() }
    }

    /// Publishes the status of a target. Says whether listeners have to hear of
    /// it: only where `established` is not what it was.
    pub fn set(&mut self, node_name: &str, status: PwSinkStatus) -> (notify: bool)
        ensures
            final(self).map@ == old(self).map@.insert(node_name@, status),
            notify == !(old(self).map@.contains_key(node_name@) && old(self).map@[node_name@].established == status.established),
    {
        match self.map.insert(String::from_str(node_name), status) {
            Some(prev) => prev.established != status.established,
            None => true,
        }
    }

    /// Forgets a target. Says whether listeners have to hear of it: only where a
    /// receiver was attached.
    pub fn remove(&mut self, node_name: &str) -> (notify: bool)
        ensures
            final(self).map@ == old(self).map@.remove(node_name@),
            notify == (old(self).map@.contains_key(node_name@) && old(self).map@[node_name@].established),
    {
        match self.map.remove(node_name) {
            Some(prev) => prev.established,
            None => false,
        }
    }

    /// The status of a target, `None` where no sender is running for it.
    pub fn get(&self, node_name: &str) -> (r: Option<PwSinkStatus>)
        ensures
            r == if self.map@.contains_key(node_name@) {
                Some(self.map@[node_name@])
            } else {
                None
            },
    {
        match self.map.get(node_name) {
            Some(s) => Some(*s),
            None => None,
        }
    }

    /// Whether a receiver is attached to a target.
    pub fn established(&self, node_name: &str) -> (r: bool)
        ensures
            r == is_established(self.map@, node_name@),
    {
        match self.map.get(node_name) {
            Some(s) => s.established,
            None => false,
        }
    }
}

/// A receiver is attached to the target.
pub open spec fn is_established(m: Map<Seq<char>, PwSinkStatus>, node: Seq<char>) -> bool {
    m.contains_key(node) && m[node].established
}

/// A host that advertises itself, or that a receiver is attached to, is present. One
/// that does neither stays as it is for the grace period, counts as offline from then
/// on, and is dropped five minutes after its advert was gone.
pub proof fn law_silent_targets_fade(present: bool, gone: u64)
    ensures
        verdict_spec(true, false, None) == Verdict::Keep,
        verdict_spec(false, false, None) == Verdict::SetPresent(true),
        verdict_spec(true, true, Some(gone)) == Verdict::Keep,
        verdict_spec(false, true, Some(gone)) == Verdict::SetPresent(true),
        gone < 45_000 ==> verdict_spec(present, false, Some(gone)) == Verdict::Keep,
        45_000 <= gone < 300_000 ==> verdict_spec(true, false, Some(gone)) == Verdict::SetPresent(
            false,
        ) && verdict_spec(false, false, Some(gone)) == Verdict::Keep,
        gone >= 300_000 ==> verdict_spec(present, false, Some(gone)) == Verdict::Remove,
{
}

/// The time that counts is the one since the advert was first gone: a second notice
/// does not move it, and a verdict does not either.
pub proof fn law_silence_is_timed_from_the_first_notice(t: PwTarget, first: u64, second: u64, now: u64)
    requires
        t.withdrawn_since is None,
        first <= now,
    ensures
        withdrawn(t, first).withdrawn_since == Some(first),
        withdrawn(withdrawn(t, first), second).withdrawn_since == Some(first),
        withdrawn(t, first).present == t.present,
        withdrawn(t, first).fullname == t.fullname,
        withdrawn(t, first).addr == t.addr,
        withdrawn(t, first).display_name == t.display_name,
        target_verdict(withdrawn(withdrawn(t, first), second), false, now) == Verdict::Remove
            <==> now - first >= 300_000,
        target_verdict(withdrawn(t, first), false, now) == Verdict::SetPresent(false) <==> t.present
            && 45_000 <= now - first < 300_000,
        forall|v: Verdict| (#[trigger] judged(t, v)).withdrawn_since == t.withdrawn_since,
{
}

/// A verdict changes whether a host is present, and nothing else of it.
pub proof fn law_a_verdict_sets_the_presence(t: PwTarget, p: bool)
    ensures
        judged(t, Verdict::SetPresent(p)).present == p,
        judged(t, Verdict::SetPresent(p)).fullname == t.fullname,
        judged(t, Verdict::SetPresent(p)).addr == t.addr,
        judged(t, Verdict::SetPresent(p)).display_name == t.display_name,
        judged(t, Verdict::Keep) == t,
{
}

/// A session that this daemon does not advertise itself is a host to offer, as long as
/// it has a label; one that it does advertise never is.
pub proof fn law_foreign_sessions_are_offered(label: Seq<char>)
    ensures
        PWSINK_SESSION_PREFIX@.is_prefix_of(label) ==> !is_target(label),
        label.len() == 0 ==> !is_target(label),
        label.len() > 0 && !PWSINK_SESSION_PREFIX@.is_prefix_of(label) && label
            != SPIKE_SESSION_NAME@ ==> is_target(label),
{
}

} // verus!
