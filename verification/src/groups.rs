//! Which synchronized groups the stored routes call for.
//!
//! Every output that is fed from the same set of sources belongs to one group, so
//! the identity of a group is its sources and never its members: a speaker that
//! joins or leaves does not make it another group.

use crate::codec::codec_floor_us;
use crate::devices::{Ap2Device, Ip, SendspinDevice};
use crate::maps::{in_order, lemma_in_order, lemma_push_contains, lemma_with_name, sorted_names, with_name, NameMap, NameSet};
use crate::names::{display_name, output_display_name};
use crate::routing::{pair_lt, routes, source_set_of, sources_of, Route, RoutingLink};
use crate::sendspin::{codec_lists, decodes, encodable, group_codec_mode, law_lead_covers_every_member, law_least_permissive_pick_decides, lead_us, least_permissive, member_lead_us, permissiveness, required_send_ahead_us, resolve_codec, resolved_codec, same_codec, usable, SendspinCodec};
use crate::text::{hex, join, join_spec, joined2, lemma_split_join, lower_all, push_hex, split_spec, views};
use std::collections::hash_map::DefaultHasher;
use std::hash::Hash;
use std::hash::Hasher;
use vstd::prelude::*;
use vstd::std_specs::hash::DefaultHasherAdditionalSpecFns;

verus! {

/// Stands between the sources in a group's key; no node name holds it.
pub const KEY_SEP: char = '\u{1f}';

/// The same as text.
pub const KEY_SEP_TEXT: &'static str = "\u{1f}";

/// A sendspin device as it is dialed.
#[derive(Debug, PartialEq, Eq)]
pub struct Member {
    /// Its mDNS instance name.
    pub fullname: String,
    pub url: String,
}

impl Member {
    /// The model: the instance name and the address.
    pub open spec fn view(&self) -> Route {
        (self.fullname@, self.url@)
    }

    pub fn copy(&self) -> (r: Self)
        ensures
            r@ == self@,
    {
        Member { fullname: self.fullname.clone(), url: self.url.clone() }
    }
}

/// The models of members.
pub open spec fn dials(s: Seq<Member>) -> Seq<Route> {
    s.map_values(|m: Member| m@)
}

/// An AirPlay receiver of a group, with its render delay where one is set.
#[derive(Debug, PartialEq, Eq)]
pub struct Ap2Member {
    pub node_name: String,
    pub ip: Ip,
    pub delay: Option<u16>,
}

/// The model of an [`Ap2Member`].
pub type Ap2Dial = (Seq<char>, Ip, Option<u16>);

impl Ap2Member {
    pub open spec fn view(&self) -> Ap2Dial {
        (self.node_name@, self.ip, self.delay)
    }

    pub fn copy(&self) -> (r: Self)
        ensures
            r@ == self@,
    {
        Ap2Member { node_name: self.node_name.clone(), ip: self.ip, delay: self.delay }
    }
}

/// The models of receivers.
pub open spec fn ap2_dials(s: Seq<Ap2Member>) -> Seq<Ap2Dial> {
    s.map_values(|m: Ap2Member| m@)
}

/// A group that is called for.
pub struct DesiredGroup {
    /// The sources that feed it, in order.
    pub sources: Vec<String>,
    /// The sendspin devices routed to it, in order.
    pub sendspin_node_names: Vec<String>,
    /// Those of them that can be dialed, in order.
    pub sendspin_members: Vec<Member>,
    /// The send-ahead of its sendspin stream, in microseconds.
    pub sendspin_send_ahead_us: i64,
    /// The codec of its sendspin stream.
    pub sendspin_codec: &'static str,
    /// Its AirPlay receivers that have an address, in order.
    pub ap2_members: Vec<Ap2Member>,
    /// The rate its AirPlay receivers are sent at.
    pub ap2_rate: u32,
    /// Its connected remote hosts, in order.
    pub pwsink_members: Vec<String>,
}

/// The model of a [`DesiredGroup`].
#[verifier::ext_equal]
pub ghost struct DesiredView {
    pub sources: Seq<Seq<char>>,
    pub sendspin_node_names: Seq<Seq<char>>,
    pub sendspin_members: Seq<Route>,
    pub sendspin_send_ahead_us: i64,
    pub sendspin_codec: Seq<char>,
    pub ap2_members: Seq<Ap2Dial>,
    pub ap2_rate: u32,
    pub pwsink_members: Seq<Seq<char>>,
}

impl DesiredGroup {
    pub open spec fn view(&self) -> DesiredView {
        DesiredView {
            sources: views(self.sources@),
            sendspin_node_names: views(self.sendspin_node_names@),
            sendspin_members: dials(self.sendspin_members@),
            sendspin_send_ahead_us: self.sendspin_send_ahead_us,
            sendspin_codec: self.sendspin_codec@,
            ap2_members: ap2_dials(self.ap2_members@),
            ap2_rate: self.ap2_rate,
            pwsink_members: views(self.pwsink_members@),
        }
    }

    /// A group with these sources and no members yet.
    pub fn new(sources: &NameSet) -> (r: Self)
        ensures
            r@ == empty_group(in_order(sources@)),
    {
        let n: usize = sources.len();
        proof {
            lemma_in_order(sources.names());
        }
        let r = DesiredGroup {
            sources: sources.to_vec(),
            sendspin_node_names: Vec::new(),
            sendspin_members: Vec::new(),
            sendspin_send_ahead_us: 0,
            sendspin_codec: "pcm",
            ap2_members: Vec::new(),
            ap2_rate: 48_000,
            pwsink_members: Vec::new(),
        };
        assert(r@ =~= empty_group(in_order(sources@)));
        r
    }
}

/// A group without members.
pub open spec fn empty_group(sources: Seq<Seq<char>>) -> DesiredView {
    DesiredView {
        sources,
        sendspin_node_names: Seq::empty(),
        sendspin_members: Seq::empty(),
        sendspin_send_ahead_us: 0,
        sendspin_codec: "pcm"@,
        ap2_members: Seq::empty(),
        ap2_rate: 48_000,
        pwsink_members: Seq::empty(),
    }
}

// ---- identity -------------------------------------------------------------------

/// What a hasher has taken in once `text` was hashed into it.
pub uninterp spec fn fed(state: Seq<Seq<u8>>, text: Seq<char>) -> Seq<Seq<u8>>;

/// Hashes `text` into `state` with std's `<str as Hash>::hash`: what the hasher
/// has taken in afterwards depends on what it had and on the text alone. Which
/// bytes it hands over is left unsaid.
#[verifier::external_body]
fn feed(state: &mut DefaultHasher, text: &str)
    ensures
        final(state)@ == fed(old(state)@, text@),
{
    text.hash(state);
}

/// The number that stands for a key: that of a hasher with fixed keys.
pub open spec fn key_number(key: Seq<char>) -> u64 {
    DefaultHasher::spec_finish(fed(Seq::empty(), key))
}

/// The short name of a key: its number in sixteen hexadecimal digits.
pub fn group_hash(key: &str) -> (r: String)
    ensures
        r@ == hex(key_number(key@) as int, 16),
{
    let mut h = DefaultHasher::new();
    feed(&mut h, key);
    let n: u64 = h.finish();
    let mut out = String::new();
    push_hex(&mut out, n, 16);
    out
}

/// The key of a set of sources.
pub open spec fn key_spec(sources: Set<Seq<char>>) -> Seq<char> {
    join_spec(in_order(sources), KEY_SEP_TEXT@)
}

/// The key of a set of sources: its members in order, with the separator between.
pub fn source_key(sources: &NameSet) -> (r: String)
    ensures
        r@ == key_spec(sources@),
{
    let n: usize = sources.len();
    proof {
        lemma_in_order(sources.names());
    }
    join(&sources.to_vec(), KEY_SEP_TEXT)
}

/// A key tells its sources: where no source name holds the separator, splitting
/// the key gives them back in order.
pub proof fn law_keys_tell_their_sources(sources: Seq<Seq<char>>)
    requires
        sorted_names(sources),
        sources.len() > 0,
        forall|i: int| 0 <= i < sources.len() ==> !(#[trigger] sources[i]).contains(KEY_SEP),
    ensures
        split_spec(key_spec(sources.to_set()), KEY_SEP) == sources,
{
    lemma_in_order(sources);
    reveal_strlit("\u{1f}");
    assert(KEY_SEP_TEXT@ =~= seq![KEY_SEP]);
    lemma_split_join(sources, KEY_SEP);
}

// ---- what is called for -------------------------------------------------------------

/// Some source is routed to the output.
pub open spec fn is_routed(intent: Seq<Route>, output: Seq<char>) -> bool {
    sources_of(intent, output) != Set::<Seq<char>>::empty()
}

/// The key of the group that the output belongs to.
pub open spec fn key_of(intent: Seq<Route>, output: Seq<char>) -> Seq<char> {
    key_spec(sources_of(intent, output))
}

/// The outputs of the group `key`.
pub open spec fn fed_by(intent: Seq<Route>, key: Seq<char>) -> spec_fn(Seq<char>) -> bool {
    |o: Seq<char>| is_routed(intent, o) && key_of(intent, o) == key
}

/// The receivers of the group `key` that have an address.
pub open spec fn reached(
    intent: Seq<Route>,
    key: Seq<char>,
    ap2: Map<Seq<char>, Ap2Device>,
) -> spec_fn(Seq<char>) -> bool {
    |o: Seq<char>| is_routed(intent, o) && key_of(intent, o) == key && ap2[o].addr is Some
}

/// How each of the devices is dialed, those without a resolved address left out.
pub open spec fn dialable(names: Seq<Seq<char>>, devices: Map<Seq<char>, SendspinDevice>) -> Seq<
    Route,
>
    decreases names.len(),
{
    if names.len() == 0 {
        Seq::empty()
    } else {
        let before = dialable(names.drop_last(), devices);
        let d = devices[names.last()];
        match d.url {
            Some(url) => before.push((d.fullname@, url@)),
            None => before,
        }
    }
}

/// How a receiver is dialed.
pub open spec fn ap2_dial(
    ap2: Map<Seq<char>, Ap2Device>,
    delays: Map<Seq<char>, u16>,
    name: Seq<char>,
) -> Ap2Dial {
    (name, (ap2[name].addr->0).0, crate::routing::lookup(delays, name))
}

/// `s` is `of` in order.
pub open spec fn is_sorting(s: Seq<Route>, of: Seq<Route>) -> bool {
    crate::routing::routes_sorted(s) && s.to_multiset() == of.to_multiset()
}

/// The first of the names in three lists, one behind the other.
pub open spec fn first_of(
    a: Seq<Seq<char>>,
    b: Seq<Seq<char>>,
    c: Seq<Seq<char>>,
) -> Seq<char> {
    if a.len() > 0 {
        a[0]
    } else if b.len() > 0 {
        b[0]
    } else {
        c[0]
    }
}

/// The group that the outputs `a` (sendspin devices), `b` (receivers) and `c`
/// (hosts) make, which all have the same key.
pub open spec fn group_of(
    g: DesiredView,
    intent: Seq<Route>,
    a: Seq<Seq<char>>,
    b: Seq<Seq<char>>,
    c: Seq<Seq<char>>,
    devices: Map<Seq<char>, SendspinDevice>,
    ap2: Map<Seq<char>, Ap2Device>,
    delays: Map<Seq<char>, u16>,
) -> bool {
    &&& g == (DesiredView {
        sources: in_order(sources_of(intent, first_of(a, b, c))),
        sendspin_node_names: a,
        sendspin_members: g.sendspin_members,
        sendspin_send_ahead_us: 0,
        sendspin_codec: "pcm"@,
        ap2_members: b.map_values(|n: Seq<char>| ap2_dial(ap2, delays, n)),
        ap2_rate: 48_000,
        pwsink_members: c,
    })
    &&& is_sorting(g.sendspin_members, dialable(a, devices))
}

/// The groups that these outputs call for: one for each key that a routed one of
/// them has.
pub open spec fn called_for(
    groups: Map<Seq<char>, DesiredGroup>,
    intent: Seq<Route>,
    a: Seq<Seq<char>>,
    b: Seq<Seq<char>>,
    c: Seq<Seq<char>>,
    devices: Map<Seq<char>, SendspinDevice>,
    ap2: Map<Seq<char>, Ap2Device>,
    delays: Map<Seq<char>, u16>,
) -> bool {
    forall|k: Seq<char>|
        ({
            let x = a.filter(fed_by(intent, k));
            let y = b.filter(reached(intent, k, ap2));
            let z = c.filter(fed_by(intent, k));
            &&& #[trigger] groups.contains_key(k) <==> x.len() + y.len() + z.len() > 0
            &&& groups.contains_key(k) ==> group_of(
                groups[k]@,
                intent,
                x,
                y,
                z,
                devices,
                ap2,
                delays,
            )
        })
}

proof fn lemma_filter_next(s: Seq<Seq<char>>, i: int, f: spec_fn(Seq<char>) -> bool)
    requires
        0 <= i < s.len(),
    ensures
        s.take(i + 1).filter(f) == if f(s[i]) {
            s.take(i).filter(f).push(s[i])
        } else {
            s.take(i).filter(f)
        },
{
    reveal(Seq::filter);
    assert(s.take(i + 1).drop_last() =~= s.take(i));
}

proof fn lemma_filter_nothing(s: Seq<Seq<char>>, f: spec_fn(Seq<char>) -> bool)
    requires
        s.len() == 0,
    ensures
        s.filter(f) == Seq::<Seq<char>>::empty(),
{
    reveal(Seq::filter);
    assert(s.filter(f) =~= Seq::<Seq<char>>::empty());
}

fn insert_member(list: &mut Vec<Member>, m: Member)
    requires
        crate::routing::routes_sorted(dials(old(list)@)),
    ensures
        crate::routing::routes_sorted(dials(final(list)@)),
        dials(final(list)@).to_multiset() == dials(old(list)@).to_multiset().insert(m@),
{
    let ghost before = dials(list@);
    let mut at: usize = 0;
    while at < list.len() && !crate::routing::pair_before(
        &m.fullname,
        &m.url,
        &list[at].fullname,
        &list[at].url,
    )
        invariant
            at <= list@.len(),
            before == dials(list@),
            forall|j: int| 0 <= j < at ==> !pair_lt(m@, #[trigger] before[j]),
        decreases list.len() - at,
    {
        assert(before[at as int] == list@[at as int]@);
        at += 1;
    }
    proof {
        if at < before.len() {
            assert(before[at as int] == list@[at as int]@);
        }
        crate::routing::lemma_rest_stays_behind(before, at as int, m@);
    }
    list.insert(at, m);
    proof {
        assert(dials(list@) =~= before.insert(at as int, m@));
        crate::routing::lemma_insert_sorted(before, at as int, m@);
    }
}

/// The group under `key`, or the empty one with the sources of `output`.
spec fn group_at(
    m: Map<Seq<char>, DesiredGroup>,
    intent: Seq<Route>,
    output: Seq<char>,
) -> DesiredView {
    let key = key_of(intent, output);
    if m.contains_key(key) {
        m[key]@
    } else {
        empty_group(in_order(sources_of(intent, output)))
    }
}

proof fn lemma_add_device(
    m: Map<Seq<char>, DesiredGroup>,
    g: DesiredGroup,
    intent: Seq<Route>,
    a: Seq<Seq<char>>,
    i: int,
    b: Seq<Seq<char>>,
    c: Seq<Seq<char>>,
    devices: Map<Seq<char>, SendspinDevice>,
    ap2: Map<Seq<char>, Ap2Device>,
    delays: Map<Seq<char>, u16>,
)
    requires
        called_for(m, intent, a.take(i), b, c, devices, ap2, delays),
        0 <= i < a.len(),
        b.len() == 0,
        c.len() == 0,
        is_routed(intent, a[i]) ==> {
            let base = group_at(m, intent, a[i]);
            &&& g@ == (DesiredView {
                sendspin_node_names: base.sendspin_node_names.push(a[i]),
                sendspin_members: g@.sendspin_members,
                ..base
            })
            &&& crate::routing::routes_sorted(g@.sendspin_members)
            &&& g@.sendspin_members.to_multiset() == match devices[a[i]].url {
                Some(url) => base.sendspin_members.to_multiset().insert(
                    (devices[a[i]].fullname@, url@),
                ),
                None => base.sendspin_members.to_multiset(),
            }
        },
    ensures
        called_for(
            if is_routed(intent, a[i]) {
                m.insert(key_of(intent, a[i]), g)
            } else {
                m
            },
            intent,
            a.take(i + 1),
            b,
            c,
            devices,
            ap2,
            delays,
        ),
{
    let o = a[i];
    let key = key_of(intent, o);
    let m2 = if is_routed(intent, o) {
        m.insert(key, g)
    } else {
        m
    };
    assert forall|k: Seq<char>|
        ({
            let x = a.take(i + 1).filter(fed_by(intent, k));
            let y = b.filter(reached(intent, k, ap2));
            let z = c.filter(fed_by(intent, k));
            &&& #[trigger] m2.contains_key(k) <==> x.len() + y.len() + z.len() > 0
            &&& m2.contains_key(k) ==> group_of(m2[k]@, intent, x, y, z, devices, ap2, delays)
        }) by {
        lemma_filter_next(a, i, fed_by(intent, k));
        lemma_filter_nothing(b, reached(intent, k, ap2));
        lemma_filter_nothing(c, fed_by(intent, k));
        let before = m.contains_key(k);
        if fed_by(intent, k)(o) {
            let x = a.take(i).filter(fed_by(intent, k));
            let none = Seq::<Seq<char>>::empty();
            let x2 = x.push(o);
            assert(x2.drop_last() =~= x);
            assert(dialable(x2, devices) == match devices[o].url {
                Some(url) => dialable(x, devices).push((devices[o].fullname@, url@)),
                None => dialable(x, devices),
            });
            dialable(x, devices).to_multiset_ensures();
            assert(none.map_values(|n: Seq<char>| ap2_dial(ap2, delays, n)) =~= Seq::<
                Ap2Dial,
            >::empty());
            if !before {
                assert(x =~= none);
                assert(dialable(x, devices) =~= Seq::<Route>::empty());
            } else {
                assert(x2[0] == x[0]);
            }
            assert(g@ =~= (DesiredView {
                sources: in_order(sources_of(intent, first_of(x2, none, none))),
                sendspin_node_names: x2,
                sendspin_members: g@.sendspin_members,
                sendspin_send_ahead_us: 0,
                sendspin_codec: "pcm"@,
                ap2_members: none.map_values(|n: Seq<char>| ap2_dial(ap2, delays, n)),
                ap2_rate: 48_000,
                pwsink_members: none,
            }));
        } else {
            assert(is_routed(intent, o) ==> k != key);
        }
    }
}

proof fn lemma_add_receiver(
    m: Map<Seq<char>, DesiredGroup>,
    g: DesiredGroup,
    intent: Seq<Route>,
    a: Seq<Seq<char>>,
    b: Seq<Seq<char>>,
    i: int,
    c: Seq<Seq<char>>,
    devices: Map<Seq<char>, SendspinDevice>,
    ap2: Map<Seq<char>, Ap2Device>,
    delays: Map<Seq<char>, u16>,
)
    requires
        called_for(m, intent, a, b.take(i), c, devices, ap2, delays),
        0 <= i < b.len(),
        c.len() == 0,
        is_routed(intent, b[i]) && ap2[b[i]].addr is Some ==> {
            let base = group_at(m, intent, b[i]);
            g@ == (DesiredView {
                ap2_members: base.ap2_members.push(ap2_dial(ap2, delays, b[i])),
                ..base
            })
        },
    ensures
        called_for(
            if is_routed(intent, b[i]) && ap2[b[i]].addr is Some {
                m.insert(key_of(intent, b[i]), g)
            } else {
                m
            },
            intent,
            a,
            b.take(i + 1),
            c,
            devices,
            ap2,
            delays,
        ),
{
    let o = b[i];
    let key = key_of(intent, o);
    let m2 = if is_routed(intent, o) && ap2[o].addr is Some {
        m.insert(key, g)
    } else {
        m
    };
    assert forall|k: Seq<char>|
        ({
            let x = a.filter(fed_by(intent, k));
            let y = b.take(i + 1).filter(reached(intent, k, ap2));
            let z = c.filter(fed_by(intent, k));
            &&& #[trigger] m2.contains_key(k) <==> x.len() + y.len() + z.len() > 0
            &&& m2.contains_key(k) ==> group_of(m2[k]@, intent, x, y, z, devices, ap2, delays)
        }) by {
        lemma_filter_next(b, i, reached(intent, k, ap2));
        lemma_filter_nothing(c, fed_by(intent, k));
        let before = m.contains_key(k);
        if reached(intent, k, ap2)(o) {
            let x = a.filter(fed_by(intent, k));
            let y = b.take(i).filter(reached(intent, k, ap2));
            let none = Seq::<Seq<char>>::empty();
            let y2 = y.push(o);
            let dial = |n: Seq<char>| ap2_dial(ap2, delays, n);
            assert(y2.map_values(dial) =~= y.map_values(dial).push(dial(o)));
            if !before {
                assert(x =~= none);
                assert(y =~= none);
                assert(dialable(x, devices) =~= Seq::<Route>::empty());
                assert(y.map_values(dial) =~= Seq::<Ap2Dial>::empty());
            } else if y.len() > 0 {
                assert(y2[0] == y[0]);
            }
            assert(g@ =~= (DesiredView {
                sources: in_order(sources_of(intent, first_of(x, y2, none))),
                sendspin_node_names: x,
                sendspin_members: g@.sendspin_members,
                sendspin_send_ahead_us: 0,
                sendspin_codec: "pcm"@,
                ap2_members: y2.map_values(dial),
                ap2_rate: 48_000,
                pwsink_members: none,
            }));
            if !before {
                assert(is_sorting(g@.sendspin_members, dialable(x, devices)));
            }
        } else {
            assert(is_routed(intent, o) && ap2[o].addr is Some ==> k != key);
        }
    }
}

proof fn lemma_add_host(
    m: Map<Seq<char>, DesiredGroup>,
    g: DesiredGroup,
    intent: Seq<Route>,
    a: Seq<Seq<char>>,
    b: Seq<Seq<char>>,
    c: Seq<Seq<char>>,
    i: int,
    devices: Map<Seq<char>, SendspinDevice>,
    ap2: Map<Seq<char>, Ap2Device>,
    delays: Map<Seq<char>, u16>,
)
    requires
        called_for(m, intent, a, b, c.take(i), devices, ap2, delays),
        0 <= i < c.len(),
        is_routed(intent, c[i]) ==> {
            let base = group_at(m, intent, c[i]);
            g@ == (DesiredView { pwsink_members: base.pwsink_members.push(c[i]), ..base })
        },
    ensures
        called_for(
            if is_routed(intent, c[i]) {
                m.insert(key_of(intent, c[i]), g)
            } else {
                m
            },
            intent,
            a,
            b,
            c.take(i + 1),
            devices,
            ap2,
            delays,
        ),
{
    let o = c[i];
    let key = key_of(intent, o);
    let m2 = if is_routed(intent, o) {
        m.insert(key, g)
    } else {
        m
    };
    assert forall|k: Seq<char>|
        ({
            let x = a.filter(fed_by(intent, k));
            let y = b.filter(reached(intent, k, ap2));
            let z = c.take(i + 1).filter(fed_by(intent, k));
            &&& #[trigger] m2.contains_key(k) <==> x.len() + y.len() + z.len() > 0
            &&& m2.contains_key(k) ==> group_of(m2[k]@, intent, x, y, z, devices, ap2, delays)
        }) by {
        lemma_filter_next(c, i, fed_by(intent, k));
        let before = m.contains_key(k);
        if fed_by(intent, k)(o) {
            let x = a.filter(fed_by(intent, k));
            let y = b.filter(reached(intent, k, ap2));
            let z = c.take(i).filter(fed_by(intent, k));
            let none = Seq::<Seq<char>>::empty();
            let z2 = z.push(o);
            let dial = |n: Seq<char>| ap2_dial(ap2, delays, n);
            if !before {
                assert(x =~= none);
                assert(y =~= none);
                assert(z =~= none);
                assert(dialable(x, devices) =~= Seq::<Route>::empty());
                assert(y.map_values(dial) =~= Seq::<Ap2Dial>::empty());
            } else if z.len() > 0 {
                assert(z2[0] == z[0]);
            }
            assert(g@ =~= (DesiredView {
                sources: in_order(sources_of(intent, first_of(x, y, z2))),
                sendspin_node_names: x,
                sendspin_members: g@.sendspin_members,
                sendspin_send_ahead_us: 0,
                sendspin_codec: "pcm"@,
                ap2_members: y.map_values(dial),
                ap2_rate: 48_000,
                pwsink_members: z2,
            }));
            if !before {
                assert(is_sorting(g@.sendspin_members, dialable(x, devices)));
            }
        } else {
            assert(is_routed(intent, o) ==> k != key);
        }
    }
}

fn take_group(groups: &mut NameMap<DesiredGroup>, key: &str, sources: &NameSet) -> (r: DesiredGroup)
    ensures
        final(groups)@ == old(groups)@.remove(key@),
        old(groups)@.contains_key(key@) ==> r == old(groups)@[key@],
        !old(groups)@.contains_key(key@) ==> r@ == empty_group(in_order(sources@)),
{
    match groups.remove(key) {
        Some(g) => g,
        None => DesiredGroup::new(sources),
    }
}

/// The groups that the stored routes and the outputs there are call for, by key. A
/// remote host takes part while its agent is connected, a receiver once it has an
/// address.
pub fn compute_desired(
    intent: &[RoutingLink],
    devices: &NameMap<SendspinDevice>,
    ap2_devices: &NameMap<Ap2Device>,
    ap2_latencies: &NameMap<u16>,
    pwsink_hosts: &NameMap<String>,
) -> (r: NameMap<DesiredGroup>)
    ensures
        called_for(
            r@,
            routes(intent@),
            devices.names(),
            ap2_devices.names(),
            pwsink_hosts.names(),
            devices@,
            ap2_devices@,
            ap2_latencies@,
        ),
{
    let ghost want = routes(intent@);
    let ghost a = devices.names();
    let ghost b = ap2_devices.names();
    let ghost c = pwsink_hosts.names();
    let mut groups: NameMap<DesiredGroup> = NameMap::new();
    let n: usize = devices.len();
    proof {
        assert forall|k: Seq<char>|
            ({
                let x = a.take(0).filter(fed_by(want, k));
                let y = b.take(0).filter(reached(want, k, ap2_devices@));
                let z = c.take(0).filter(fed_by(want, k));
                &&& #[trigger] groups@.contains_key(k) <==> x.len() + y.len() + z.len() > 0
                &&& groups@.contains_key(k) ==> group_of(
                    groups@[k]@,
                    want,
                    x,
                    y,
                    z,
                    devices@,
                    ap2_devices@,
                    ap2_latencies@,
                )
            }) by {
            lemma_filter_nothing(a.take(0), fed_by(want, k));
            lemma_filter_nothing(b.take(0), reached(want, k, ap2_devices@));
            lemma_filter_nothing(c.take(0), fed_by(want, k));
        }
    }
    let mut i: usize = 0;
    while i < n
        invariant
            i <= n,
            want == routes(intent@),
            a == devices.names(),
            n == a.len(),
            called_for(
                groups@,
                want,
                a.take(i as int),
                b.take(0),
                c.take(0),
                devices@,
                ap2_devices@,
                ap2_latencies@,
            ),
        decreases n - i,
    {
        let name = devices.key_at(i);
        let dev = devices.value_at(i);
        let sources = source_set_of(intent, name);
        let ghost before = groups@;
        if sources.is_empty() {
            proof {
                assert(sources@ =~= Set::<Seq<char>>::empty());
                lemma_add_device(
                    before,
                    arbitrary::<DesiredGroup>(),
                    want,
                    a,
                    i as int,
                    b.take(0),
                    c.take(0),
                    devices@,
                    ap2_devices@,
                    ap2_latencies@,
                );
            }
            i += 1;
            continue ;
        }
        let key = source_key(&sources);
        let mut g = take_group(&mut groups, &key, &sources);
        let ghost base = g@;
        g.sendspin_node_names.push(name.clone());
        match &dev.url {
            Some(url) => {
                insert_member(
                    &mut g.sendspin_members,
                    Member { fullname: dev.fullname.clone(), url: url.clone() },
                );
            },
            None => {},
        }
        groups.insert(key, g);
        proof {
            assert(is_routed(want, a[i as int]));
            assert(g@ =~= (DesiredView {
                sendspin_node_names: base.sendspin_node_names.push(a[i as int]),
                sendspin_members: g@.sendspin_members,
                ..base
            }));
            assert(groups@ =~= before.insert(key_of(want, a[i as int]), g));
            lemma_add_device(
                before,
                g,
                want,
                a,
                i as int,
                b.take(0),
                c.take(0),
                devices@,
                ap2_devices@,
                ap2_latencies@,
            );
        }
        i += 1;
    }
    assert(a.take(n as int) =~= a);
    let n2: usize = ap2_devices.len();
    let mut i2: usize = 0;
    while i2 < n2
        invariant
            i2 <= n2,
            want == routes(intent@),
            b == ap2_devices.names(),
            n2 == b.len(),
            called_for(
                groups@,
                want,
                a,
                b.take(i2 as int),
                c.take(0),
                devices@,
                ap2_devices@,
                ap2_latencies@,
            ),
        decreases n2 - i2,
    {
        let name = ap2_devices.key_at(i2);
        let dev = ap2_devices.value_at(i2);
        let sources = source_set_of(intent, name);
        let ghost before = groups@;
        let ip = match dev.addr {
            Some(addr) => Some(addr.0),
            None => None,
        };
        if sources.is_empty() || ip.is_none() {
            proof {
                if sources.names().len() == 0 {
                    assert(sources@ =~= Set::<Seq<char>>::empty());
                }
                lemma_add_receiver(
                    before,
                    arbitrary::<DesiredGroup>(),
                    want,
                    a,
                    b,
                    i2 as int,
                    c.take(0),
                    devices@,
                    ap2_devices@,
                    ap2_latencies@,
                );
            }
            i2 += 1;
            continue ;
        }
        let key = source_key(&sources);
        let mut g = take_group(&mut groups, &key, &sources);
        let ghost base = g@;
        let delay = match ap2_latencies.get(name) {
            Some(ms) => Some(*ms),
            None => None,
        };
        match ip {
            Some(ip) => {
                g.ap2_members.push(Ap2Member { node_name: name.clone(), ip, delay });
            },
            None => {},
        }
        groups.insert(key, g);
        proof {
            assert(is_routed(want, b[i2 as int]));
            assert(g@ =~= (DesiredView {
                ap2_members: base.ap2_members.push(
                    ap2_dial(ap2_devices@, ap2_latencies@, b[i2 as int]),
                ),
                ..base
            }));
            assert(groups@ =~= before.insert(key_of(want, b[i2 as int]), g));
            lemma_add_receiver(
                before,
                g,
                want,
                a,
                b,
                i2 as int,
                c.take(0),
                devices@,
                ap2_devices@,
                ap2_latencies@,
            );
        }
        i2 += 1;
    }
    assert(b.take(n2 as int) =~= b);
    let n3: usize = pwsink_hosts.len();
    let mut i3: usize = 0;
    while i3 < n3
        invariant
            i3 <= n3,
            want == routes(intent@),
            c == pwsink_hosts.names(),
            n3 == c.len(),
            called_for(
                groups@,
                want,
                a,
                b,
                c.take(i3 as int),
                devices@,
                ap2_devices@,
                ap2_latencies@,
            ),
        decreases n3 - i3,
    {
        let name = pwsink_hosts.key_at(i3);
        let sources = source_set_of(intent, name);
        let ghost before = groups@;
        if sources.is_empty() {
            proof {
                assert(sources@ =~= Set::<Seq<char>>::empty());
                lemma_add_host(
                    before,
                    arbitrary::<DesiredGroup>(),
                    want,
                    a,
                    b,
                    c,
                    i3 as int,
                    devices@,
                    ap2_devices@,
                    ap2_latencies@,
                );
            }
            i3 += 1;
            continue ;
        }
        let key = source_key(&sources);
        let mut g = take_group(&mut groups, &key, &sources);
        let ghost base = g@;
        g.pwsink_members.push(name.clone());
        groups.insert(key, g);
        proof {
            assert(is_routed(want, c[i3 as int]));
            assert(g@ =~= (DesiredView {
                pwsink_members: base.pwsink_members.push(c[i3 as int]),
                ..base
            }));
            assert(groups@ =~= before.insert(key_of(want, c[i3 as int]), g));
            lemma_add_host(
                before,
                g,
                want,
                a,
                b,
                c,
                i3 as int,
                devices@,
                ap2_devices@,
                ap2_latencies@,
            );
        }
        i3 += 1;
    }
    assert(c.take(n3 as int) =~= c);
    groups
}

/// Outputs are in one group exactly when the same sources feed them, where no
/// source name holds the separator.
pub proof fn law_groups_share_their_sources(intent: Seq<Route>, a: Seq<char>, b: Seq<char>)
    requires
        is_routed(intent, a),
        is_routed(intent, b),
        forall|i: int| 0 <= i < intent.len() ==> !(#[trigger] intent[i]).0.contains(KEY_SEP),
    ensures
        key_of(intent, a) == key_of(intent, b) <==> sources_of(intent, a) == sources_of(intent, b),
{
    if key_of(intent, a) == key_of(intent, b) {
        let sa = in_order(sources_of(intent, a));
        let sb = in_order(sources_of(intent, b));
        let wa = lemma_sources_in_order(intent, a);
        let wb = lemma_sources_in_order(intent, b);
        assert(sorted_names(sa) && sa.to_set() == sources_of(intent, a));
        assert(sorted_names(sb) && sb.to_set() == sources_of(intent, b));
        lemma_sources_are_plain(intent, a, sa);
        lemma_sources_are_plain(intent, b, sb);
        law_keys_tell_their_sources(sa);
        law_keys_tell_their_sources(sb);
    }
}

proof fn lemma_sources_in_order(intent: Seq<Route>, o: Seq<char>) -> (s: Seq<Seq<char>>)
    ensures
        sorted_names(s),
        s.to_set() == sources_of(intent, o),
    decreases intent.len(),
{
    if intent.len() == 0 {
        let s = Seq::<Seq<char>>::empty();
        assert(s.to_set() =~= sources_of(intent, o));
        s
    } else {
        let front = intent.drop_last();
        let before = lemma_sources_in_order(front, o);
        let l = intent.last();
        assert(intent =~= front.push(l));
        lemma_push_contains(front, l);
        if l.1 == o {
            lemma_with_name(before, l.0);
            let s = with_name(before, l.0);
            assert(s.to_set() =~= sources_of(intent, o));
            s
        } else {
            assert(before.to_set() =~= sources_of(intent, o));
            before
        }
    }
}

proof fn lemma_sources_are_plain(intent: Seq<Route>, o: Seq<char>, s: Seq<Seq<char>>)
    requires
        is_routed(intent, o),
        forall|i: int| 0 <= i < intent.len() ==> !(#[trigger] intent[i]).0.contains(KEY_SEP),
        s.to_set() == sources_of(intent, o),
    ensures
        s.len() > 0,
        forall|i: int| 0 <= i < s.len() ==> !(#[trigger] s[i]).contains(KEY_SEP),
{
    assert forall|i: int| 0 <= i < s.len() implies !(#[trigger] s[i]).contains(KEY_SEP) by {
        assert(s.to_set().contains(s[i]));
        let k = choose|k: int| 0 <= k < intent.len() && intent[k] == (s[i], o);
        assert(!intent[k].0.contains(KEY_SEP));
    }
    if s.len() == 0 {
        assert(s.to_set() =~= Set::<Seq<char>>::empty());
    }
}

// ---- how a group plays -----------------------------------------------------------------

/// The timing and codec choices that a group is resolved with.
pub struct SyncSettings {
    /// The configured lead of every group, in microseconds.
    pub send_ahead_us: i64,
    pub opus_floor_ms: u32,
    /// Static delay by sendspin device, in milliseconds.
    pub sendspin_delays: NameMap<u16>,
    /// Codec pick by sendspin device.
    pub sendspin_codecs: NameMap<SendspinCodec>,
    /// Render delay by receiver, in milliseconds.
    pub ap2_latencies: NameMap<u16>,
    /// The receivers that take 48 kHz.
    pub ap2_full_rate: NameSet,
    /// Playout delay by remote host, in milliseconds.
    pub pwsink_jitters: NameMap<u16>,
    pub pwsink_default_jitter_ms: u16,
}

/// The pick for a device, Auto where there is none.
pub open spec fn pick_of(picks: Map<Seq<char>, SendspinCodec>, name: Seq<char>) -> SendspinCodec {
    if picks.contains_key(name) {
        picks[name]
    } else {
        SendspinCodec::Auto
    }
}

/// What a device advertised; nothing where it is not known.
pub open spec fn advertised(devices: Map<Seq<char>, SendspinDevice>, name: Seq<char>) -> Seq<
    Seq<char>,
> {
    if devices.contains_key(name) {
        views(devices[name].supported_codecs@)
    } else {
        Seq::empty()
    }
}

/// The buffer a device asks for and its static delay.
pub open spec fn needs_of(
    devices: Map<Seq<char>, SendspinDevice>,
    delays: Map<Seq<char>, u16>,
    name: Seq<char>,
) -> (Option<u32>, u16) {
    (
        if devices.contains_key(name) {
            devices[name].min_buffer_ms
        } else {
            None
        },
        if delays.contains_key(name) {
            delays[name]
        } else {
            0
        },
    )
}

/// The codec that these devices are sent.
pub open spec fn codec_for(
    names: Seq<Seq<char>>,
    devices: Map<Seq<char>, SendspinDevice>,
    s: SyncSettings,
) -> Seq<char> {
    resolved_codec(
        least_permissive(names.map_values(|n: Seq<char>| pick_of(s.sendspin_codecs@, n))),
        names.map_values(|n: Seq<char>| advertised(devices, n)),
    )
}

/// The lead that these devices are sent with.
pub open spec fn lead_for(
    names: Seq<Seq<char>>,
    devices: Map<Seq<char>, SendspinDevice>,
    s: SyncSettings,
) -> int {
    lead_us(
        s.send_ahead_us as int,
        codec_floor_us(codec_for(names, devices, s), s.opus_floor_ms),
        names.map_values(|n: Seq<char>| needs_of(devices, s.sendspin_delays@, n)),
    )
}

/// The rate that receivers are sent at: the full one where each of them takes it.
pub open spec fn rate_for(members: Seq<Ap2Dial>, full_rate: Set<Seq<char>>) -> u32 {
    if forall|i: int| 0 <= i < members.len() ==> full_rate.contains((#[trigger] members[i]).0) {
        48_000
    } else {
        44_100
    }
}

/// The group with its rate, its codec and its lead settled.
pub open spec fn settled(
    g: DesiredView,
    devices: Map<Seq<char>, SendspinDevice>,
    s: SyncSettings,
) -> DesiredView {
    DesiredView {
        ap2_rate: if g.ap2_members.len() > 0 {
            rate_for(g.ap2_members, s.ap2_full_rate@)
        } else {
            g.ap2_rate
        },
        sendspin_codec: if g.sendspin_node_names.len() > 0 {
            codec_for(g.sendspin_node_names, devices, s)
        } else {
            g.sendspin_codec
        },
        sendspin_send_ahead_us: if g.sendspin_node_names.len() > 0 {
            lead_for(g.sendspin_node_names, devices, s) as i64
        } else {
            g.sendspin_send_ahead_us
        },
        ..g
    }
}

pub(crate) fn copy_names(v: &Vec<String>) -> (r: Vec<String>)
    ensures
        views(r@) == views(v@),
{
    let mut out: Vec<String> = Vec::new();
    let mut i: usize = 0;
    while i < v.len()
        invariant
            i <= v@.len(),
            out@.len() == i,
            forall|j: int| 0 <= j < i ==> (#[trigger] out@[j])@ == v@[j]@,
        decreases v.len() - i,
    {
        out.push(v[i].clone());
        i += 1;
    }
    assert(views(out@) =~= views(v@));
    out
}

/// The codec and the lead that these devices are sent with.
pub fn stream_for(
    names: &Vec<String>,
    devices: &NameMap<SendspinDevice>,
    s: &SyncSettings,
) -> (r: (&'static str, i64))
    ensures
        r.0@ == codec_for(views(names@), devices@, *s),
        r.1 == lead_for(views(names@), devices@, *s),
{
    let ghost all = views(names@);
    let mut modes: Vec<SendspinCodec> = Vec::new();
    let mut lists: Vec<Vec<String>> = Vec::new();
    let mut needs: Vec<(Option<u32>, u16)> = Vec::new();
    let mut i: usize = 0;
    while i < names.len()
        invariant
            i <= names@.len(),
            all == views(names@),
            modes@.len() == i,
            lists@.len() == i,
            needs@.len() == i,
            forall|j: int| 0 <= j < i ==> #[trigger] modes@[j] == pick_of(s.sendspin_codecs@, all[j]),
            forall|j: int|
                0 <= j < i ==> views((#[trigger] lists@[j])@) == advertised(devices@, all[j]),
            forall|j: int|
                0 <= j < i ==> #[trigger] needs@[j] == needs_of(
                    devices@,
                    s.sendspin_delays@,
                    all[j],
                ),
        decreases names.len() - i,
    {
        let name = &names[i];
        let mode = match s.sendspin_codecs.get(name) {
            Some(m) => *m,
            None => SendspinCodec::Auto,
        };
        let delay: u16 = match s.sendspin_delays.get(name) {
            Some(ms) => *ms,
            None => 0,
        };
        modes.push(mode);
        match devices.get(name) {
            Some(d) => {
                lists.push(copy_names(&d.supported_codecs));
                needs.push((d.min_buffer_ms, delay));
            },
            None => {
                let none: Vec<String> = Vec::new();
                assert(views(none@) =~= Seq::<Seq<char>>::empty());
                lists.push(none);
                needs.push((None, delay));
            },
        }
        i += 1;
    }
    proof {
        assert(modes@ =~= all.map_values(|n: Seq<char>| pick_of(s.sendspin_codecs@, n)));
        assert(codec_lists(lists@) =~= all.map_values(|n: Seq<char>| advertised(devices@, n)));
        assert(needs@ =~= all.map_values(
            |n: Seq<char>| needs_of(devices@, s.sendspin_delays@, n),
        ));
    }
    let codec = resolve_codec(group_codec_mode(&modes), &lists);
    let lead: i64 = required_send_ahead_us(s.send_ahead_us, codec, s.opus_floor_ms, &needs);
    (codec, lead)
}

fn group_rate(members: &Vec<Ap2Member>, full_rate: &NameSet) -> (r: u32)
    ensures
        r == rate_for(ap2_dials(members@), full_rate@),
{
    let mut i: usize = 0;
    while i < members.len()
        invariant
            i <= members@.len(),
            forall|j: int|
                0 <= j < i ==> full_rate@.contains((#[trigger] ap2_dials(members@)[j]).0),
        decreases members.len() - i,
    {
        if !full_rate.contains(&members[i].node_name) {
            assert(!full_rate@.contains(ap2_dials(members@)[i as int].0));
            return 44_100;
        }
        i += 1;
    }
    48_000
}

/// Settles the rate, the codec and the lead of a group.
pub fn settle(g: &mut DesiredGroup, devices: &NameMap<SendspinDevice>, s: &SyncSettings)
    ensures
        final(g)@ == settled(old(g)@, devices@, *s),
{
    let ghost before = g@;
    if g.ap2_members.len() > 0 {
        g.ap2_rate = group_rate(&g.ap2_members, &s.ap2_full_rate);
    }
    if g.sendspin_node_names.len() > 0 {
        let (codec, lead) = stream_for(&g.sendspin_node_names, devices, s);
        g.sendspin_codec = codec;
        g.sendspin_send_ahead_us = lead;
    }
}

/// Some of the devices has this pick stored for it.
pub open spec fn picked(
    names: Seq<Seq<char>>,
    picks: Map<Seq<char>, SendspinCodec>,
    codec: SendspinCodec,
) -> bool {
    exists|i: int|
        0 <= i < names.len() && picks.contains_key(#[trigger] names[i]) && picks[names[i]] == codec
}

/// Each of the devices that has said what it decodes named this codec.
pub open spec fn all_decode(
    names: Seq<Seq<char>>,
    devices: Map<Seq<char>, SendspinDevice>,
    codec: Seq<char>,
) -> bool {
    forall|i: int|
        0 <= i < names.len() && devices.contains_key(#[trigger] names[i])
            && devices[names[i]].supported_codecs@.len() > 0 ==> exists|j: int|
            0 <= j < devices[names[i]].supported_codecs@.len() && lower_all(
                (#[trigger] devices[names[i]].supported_codecs@[j])@,
            ) == lower_all(codec)
}

/// The stored picks decide what a group is sent. One member that is set to PCM is
/// enough for PCM; otherwise one that is set to FLAC is enough for FLAC, where each
/// member decodes it; and without either it is Opus, where each member decodes it.
/// Whatever does not fit every member comes out as PCM.
pub proof fn law_stored_picks_decide(
    names: Seq<Seq<char>>,
    devices: Map<Seq<char>, SendspinDevice>,
    s: SyncSettings,
)
    ensures
        ({
            let picks = s.sendspin_codecs@;
            let codec = codec_for(names, devices, s);
            &&& picked(names, picks, SendspinCodec::Pcm) ==> codec == "pcm"@
            &&& !picked(names, picks, SendspinCodec::Pcm) && picked(
                names,
                picks,
                SendspinCodec::Flac,
            ) ==> codec == if all_decode(names, devices, "flac"@) {
                "flac"@
            } else {
                "pcm"@
            }
            &&& !picked(names, picks, SendspinCodec::Pcm) && !picked(
                names,
                picks,
                SendspinCodec::Flac,
            ) ==> codec == if all_decode(names, devices, "opus"@) {
                "opus"@
            } else {
                "pcm"@
            }
        }),
{
    let picks = s.sendspin_codecs@;
    let modes = names.map_values(|n: Seq<char>| pick_of(picks, n));
    let lists = names.map_values(|n: Seq<char>| advertised(devices, n));
    lemma_all_decode(names, devices, "flac"@);
    lemma_all_decode(names, devices, "opus"@);
    let mode = least_permissive(modes);
    if modes.len() > 0 {
        law_least_permissive_pick_decides(modes);
        let k = choose|k: int| 0 <= k < modes.len() && modes[k] == mode;
        assert(modes[k] == pick_of(picks, names[k]));
        if picks.contains_key(names[k]) {
            assert(picked(names, picks, picks[names[k]]));
        }
        if picked(names, picks, SendspinCodec::Pcm) {
            let i = choose|i: int|
                0 <= i < names.len() && picks.contains_key(#[trigger] names[i]) && picks[names[i]]
                    == SendspinCodec::Pcm;
            assert(permissiveness(mode) <= permissiveness(modes[i]));
        }
        if picked(names, picks, SendspinCodec::Flac) {
            let i = choose|i: int|
                0 <= i < names.len() && picks.contains_key(#[trigger] names[i]) && picks[names[i]]
                    == SendspinCodec::Flac;
            assert(permissiveness(mode) <= permissiveness(modes[i]));
        }
    }
}

proof fn lemma_all_decode(
    names: Seq<Seq<char>>,
    devices: Map<Seq<char>, SendspinDevice>,
    codec: Seq<char>,
)
    ensures
        encodable(codec) ==> usable(
            codec,
            names.map_values(|n: Seq<char>| advertised(devices, n)),
        ) == all_decode(names, devices, codec),
{
    let told = names.map_values(|n: Seq<char>| advertised(devices, n));
    if encodable(codec) && usable(codec, told) {
        assert forall|i: int|
            0 <= i < names.len() && devices.contains_key(#[trigger] names[i])
                && devices[names[i]].supported_codecs@.len() > 0 implies exists|j: int|
            0 <= j < devices[names[i]].supported_codecs@.len() && lower_all(
                (#[trigger] devices[names[i]].supported_codecs@[j])@,
            ) == lower_all(codec) by {
            let known = devices[names[i]].supported_codecs@;
            assert(told[i] == views(known));
            assert(decodes(told[i], codec));
            let j = choose|j: int|
                0 <= j < told[i].len() && same_codec(#[trigger] told[i][j], codec);
            assert(told[i][j] == known[j]@);
        }
    }
    if encodable(codec) && all_decode(names, devices, codec) {
        assert forall|i: int| 0 <= i < told.len() && (#[trigger] told[i]).len() > 0 implies decodes(
            told[i],
            codec,
        ) by {
            assert(told[i] == advertised(devices, names[i]));
            let known = devices[names[i]].supported_codecs@;
            assert(told[i] == views(known));
            let j = choose|j: int|
                0 <= j < known.len() && lower_all((#[trigger] known[j])@) == lower_all(codec);
            assert(same_codec(told[i][j], codec));
        }
    }
}

/// A stored pick is never overruled by a more permissive one: the group's codec is
/// what some member's pick, or the default, resolves to, and no member's stored pick
/// permits less than that one.
pub proof fn law_no_pick_is_overruled_by_a_laxer_one(
    names: Seq<Seq<char>>,
    devices: Map<Seq<char>, SendspinDevice>,
    s: SyncSettings,
) -> (mode: SendspinCodec)
    ensures
        codec_for(names, devices, s) == resolved_codec(
            mode,
            names.map_values(|n: Seq<char>| advertised(devices, n)),
        ),
        mode == SendspinCodec::Auto || picked(names, s.sendspin_codecs@, mode),
        forall|i: int|
            0 <= i < names.len() && s.sendspin_codecs@.contains_key(#[trigger] names[i])
                ==> permissiveness(mode) <= permissiveness(s.sendspin_codecs@[names[i]]),
{
    let picks = s.sendspin_codecs@;
    let modes = names.map_values(|n: Seq<char>| pick_of(picks, n));
    let mode = least_permissive(modes);
    if modes.len() > 0 {
        law_least_permissive_pick_decides(modes);
        let k = choose|k: int| 0 <= k < modes.len() && modes[k] == mode;
        assert(modes[k] == pick_of(picks, names[k]));
        if picks.contains_key(names[k]) {
            assert(picked(names, picks, mode));
        }
        assert forall|i: int|
            0 <= i < names.len() && picks.contains_key(#[trigger] names[i]) implies permissiveness(
            mode,
        ) <= permissiveness(picks[names[i]]) by {
            assert(modes[i] == picks[names[i]]);
        }
    }
    mode
}

/// What a device's lead takes, in microseconds: the buffer it asks for, or else the
/// floor that Opus needs, and its stored delay on top.
pub open spec fn lead_of(
    name: Seq<char>,
    opus: bool,
    devices: Map<Seq<char>, SendspinDevice>,
    s: SyncSettings,
) -> int {
    let delay: int = if s.sendspin_delays@.contains_key(name) {
        s.sendspin_delays@[name] as int
    } else {
        0
    };
    if devices.contains_key(name) && devices[name].min_buffer_ms is Some {
        (devices[name].min_buffer_ms->0 + delay) * 1000
    } else if opus {
        (s.opus_floor_ms + delay) * 1000
    } else {
        delay * 1000
    }
}

/// A group is sent with enough lead for every member: the configured lead, or more
/// where a member's buffer and delay take more, and never more than some member
/// takes.
pub proof fn law_the_lead_covers_the_group(
    names: Seq<Seq<char>>,
    devices: Map<Seq<char>, SendspinDevice>,
    s: SyncSettings,
)
    ensures
        ({
            let lead = lead_for(names, devices, s);
            let opus = codec_for(names, devices, s) == "opus"@;
            &&& lead >= s.send_ahead_us
            &&& forall|i: int|
                0 <= i < names.len() ==> lead >= lead_of(#[trigger] names[i], opus, devices, s)
            &&& lead == s.send_ahead_us || exists|i: int|
                0 <= i < names.len() && lead == lead_of(#[trigger] names[i], opus, devices, s)
        }),
{
    let needs = names.map_values(|n: Seq<char>| needs_of(devices, s.sendspin_delays@, n));
    let codec = codec_for(names, devices, s);
    let opus = codec == "opus"@;
    let floor = codec_floor_us(codec, s.opus_floor_ms);
    let lead = lead_for(names, devices, s);
    law_lead_covers_every_member(s.send_ahead_us as int, floor, needs);
    assert forall|i: int| 0 <= i < names.len() implies lead >= lead_of(
        #[trigger] names[i],
        opus,
        devices,
        s,
    ) by {
        assert(member_lead_us(needs[i].0, needs[i].1, floor) == lead_of(names[i], opus, devices, s));
    }
    if lead != s.send_ahead_us {
        let i = choose|i: int|
            0 <= i < needs.len() && lead == member_lead_us(
                (#[trigger] needs[i]).0,
                needs[i].1,
                floor,
            );
        assert(lead_of(names[i], opus, devices, s) == member_lead_us(needs[i].0, needs[i].1, floor));
        assert(lead == lead_of(names[i], opus, devices, s));
    }
}

/// Receivers are sent at the full rate exactly where each of them is set to take it,
/// and a group without any keeps its rate. Who plays what does not change by
/// settling it.
pub proof fn law_one_slow_receiver_slows_the_group(
    g: DesiredView,
    devices: Map<Seq<char>, SendspinDevice>,
    s: SyncSettings,
)
    ensures
        ({
            let done = settled(g, devices, s);
            &&& done.ap2_members == g.ap2_members
            &&& done.sources == g.sources
            &&& done.sendspin_node_names == g.sendspin_node_names
            &&& done.sendspin_members == g.sendspin_members
            &&& done.pwsink_members == g.pwsink_members
            &&& g.ap2_members.len() == 0 ==> done.ap2_rate == g.ap2_rate
            &&& forall|i: int|
                0 <= i < g.ap2_members.len() && !s.ap2_full_rate@.contains(
                    (#[trigger] g.ap2_members[i]).0,
                ) ==> done.ap2_rate == 44_100
            &&& g.ap2_members.len() > 0 && (forall|i: int|
                0 <= i < g.ap2_members.len() ==> s.ap2_full_rate@.contains(
                    (#[trigger] g.ap2_members[i]).0,
                )) ==> done.ap2_rate == 48_000
            &&& g.sendspin_node_names.len() > 0 ==> done.sendspin_codec == codec_for(
                g.sendspin_node_names,
                devices,
                s,
            ) && done.sendspin_send_ahead_us == lead_for(g.sendspin_node_names, devices, s) as i64
            &&& g.sendspin_node_names.len() == 0 ==> done.sendspin_codec == g.sendspin_codec
                && done.sendspin_send_ahead_us == g.sendspin_send_ahead_us
        }),
{
}

/// A filter keeps exactly what it picks.
pub proof fn lemma_filter_contains<A>(s: Seq<A>, f: spec_fn(A) -> bool, x: A)
    ensures
        s.filter(f).contains(x) <==> s.contains(x) && f(x),
    decreases s.len(),
{
    reveal(Seq::filter);
    if s.len() > 0 {
        lemma_filter_contains(s.drop_last(), f, x);
        lemma_push_contains(s.drop_last(), s.last());
        lemma_push_contains(s.drop_last().filter(f), s.last());
        assert(s =~= s.drop_last().push(s.last()));
    }
}

proof fn lemma_dialable(
    names: Seq<Seq<char>>,
    devices: Map<Seq<char>, SendspinDevice>,
)
    ensures
        forall|m: Route| #[trigger]
            dialable(names, devices).contains(m) <==> exists|i: int|
                0 <= i < names.len() && devices[#[trigger] names[i]].url is Some && m == (
                    devices[names[i]].fullname@,
                    devices[names[i]].url->0@,
                ),
    decreases names.len(),
{
    let all = dialable(names, devices);
    if names.len() > 0 {
        let front = names.drop_last();
        let before = dialable(front, devices);
        let d = devices[names.last()];
        lemma_dialable(front, devices);
        if d.url is Some {
            lemma_push_contains(before, (d.fullname@, d.url->0@));
        }
        assert forall|m: Route| #[trigger] all.contains(m) <==> exists|i: int|
            0 <= i < names.len() && devices[#[trigger] names[i]].url is Some && m == (
                devices[names[i]].fullname@,
                devices[names[i]].url->0@,
            ) by {
            if before.contains(m) {
                let i = choose|i: int|
                    0 <= i < front.len() && devices[#[trigger] front[i]].url is Some && m == (
                        devices[front[i]].fullname@,
                        devices[front[i]].url->0@,
                    );
                assert(names[i] == front[i]);
            }
            if exists|i: int|
                0 <= i < names.len() && devices[#[trigger] names[i]].url is Some && m == (
                    devices[names[i]].fullname@,
                    devices[names[i]].url->0@,
                ) {
                let i = choose|i: int|
                    0 <= i < names.len() && devices[#[trigger] names[i]].url is Some && m == (
                        devices[names[i]].fullname@,
                        devices[names[i]].url->0@,
                    );
                if i < front.len() {
                    assert(front[i] == names[i]);
                } else {
                    assert(names[i] == names.last());
                }
            }
            if all.contains(m) && !before.contains(m) {
                assert(names[names.len() - 1] == names.last());
            }
        }
    }
}

proof fn lemma_same_contents(s: Seq<Route>, t: Seq<Route>, m: Route)
    requires
        s.to_multiset() == t.to_multiset(),
    ensures
        s.contains(m) <==> t.contains(m),
{
    s.to_multiset_ensures();
    t.to_multiset_ensures();
    assert(s.contains(m) <==> s.to_multiset().count(m) > 0);
    assert(t.contains(m) <==> t.to_multiset().count(m) > 0);
}

/// The sources of a group are those of each output in it.
pub proof fn lemma_group_sources(
    intent: Seq<Route>,
    k: Seq<char>,
    first: Seq<char>,
    o: Seq<char>,
    source: Seq<char>,
)
    requires
        is_routed(intent, first),
        is_routed(intent, o),
        key_of(intent, first) == k,
        key_of(intent, o) == k,
        forall|i: int| 0 <= i < intent.len() ==> !(#[trigger] intent[i]).0.contains(KEY_SEP),
    ensures
        in_order(sources_of(intent, first)).contains(source) <==> intent.contains((source, o)),
{
    law_groups_share_their_sources(intent, first, o);
    let w = lemma_sources_in_order(intent, first);
    lemma_in_order(w);
    assert(in_order(sources_of(intent, first)) == w);
    assert(w.to_set().contains(source) <==> w.contains(source));
    assert(sources_of(intent, o).contains(source) <==> intent.contains((source, o)));
}

/// A group that was made for the outputs with the key of `o` has exactly the sources
/// of `o`, and dials `o` as it is known.
pub proof fn lemma_group_has(
    g: DesiredView,
    intent: Seq<Route>,
    a: Seq<Seq<char>>,
    b: Seq<Seq<char>>,
    c: Seq<Seq<char>>,
    devices: Map<Seq<char>, SendspinDevice>,
    ap2: Map<Seq<char>, Ap2Device>,
    delays: Map<Seq<char>, u16>,
    o: Seq<char>,
)
    requires
        group_of(
            g,
            intent,
            a.filter(fed_by(intent, key_of(intent, o))),
            b.filter(reached(intent, key_of(intent, o), ap2)),
            c.filter(fed_by(intent, key_of(intent, o))),
            devices,
            ap2,
            delays,
        ),
        is_routed(intent, o),
        forall|i: int| 0 <= i < intent.len() ==> !(#[trigger] intent[i]).0.contains(KEY_SEP),
        a.contains(o) || (b.contains(o) && ap2[o].addr is Some) || c.contains(o),
    ensures
        forall|s: Seq<char>| #[trigger] g.sources.contains(s) <==> intent.contains((s, o)),
        a.contains(o) ==> g.sendspin_node_names.contains(o),
        a.contains(o) && devices[o].url is Some ==> g.sendspin_members.contains(
            (devices[o].fullname@, devices[o].url->0@),
        ),
        b.contains(o) && ap2[o].addr is Some ==> g.ap2_members.contains(
            (
                o,
                (ap2[o].addr->0).0,
                if delays.contains_key(o) {
                    Some(delays[o])
                } else {
                    None
                },
            ),
        ),
        c.contains(o) ==> g.pwsink_members.contains(o),
{
    let k = key_of(intent, o);
    let x = a.filter(fed_by(intent, k));
    let y = b.filter(reached(intent, k, ap2));
    let z = c.filter(fed_by(intent, k));
    lemma_filter_contains(a, fed_by(intent, k), o);
    lemma_filter_contains(b, reached(intent, k, ap2), o);
    lemma_filter_contains(c, fed_by(intent, k), o);
    assert(x.len() + y.len() + z.len() > 0);
    let first = first_of(x, y, z);
    lemma_first_is_fed(intent, k, a, b, c, ap2);
    assert forall|s: Seq<char>| #[trigger] g.sources.contains(s) <==> intent.contains((s, o)) by {
        lemma_group_sources(intent, k, first, o, s);
    }
    if a.contains(o) && devices[o].url is Some {
        lemma_dialable(x, devices);
        let m = (devices[o].fullname@, devices[o].url->0@);
        let i = choose|i: int| 0 <= i < x.len() && x[i] == o;
        assert(devices[x[i]].url is Some);
        assert(dialable(x, devices).contains(m));
        lemma_same_contents(g.sendspin_members, dialable(x, devices), m);
    }
    if b.contains(o) && ap2[o].addr is Some {
        let i = choose|i: int| 0 <= i < y.len() && y[i] == o;
        assert(g.ap2_members[i] == ap2_dial(ap2, delays, o));
    }
}

/// Every output that some source is routed to plays in a group that has exactly its
/// sources, dialed as it is known: a sendspin device by its name and address where
/// it has one, a receiver that has an address at that address with its stored delay,
/// a connected host by its name.
pub proof fn law_every_routed_output_has_its_group(
    groups: Map<Seq<char>, DesiredGroup>,
    intent: Seq<Route>,
    a: Seq<Seq<char>>,
    b: Seq<Seq<char>>,
    c: Seq<Seq<char>>,
    devices: Map<Seq<char>, SendspinDevice>,
    ap2: Map<Seq<char>, Ap2Device>,
    delays: Map<Seq<char>, u16>,
    source: Seq<char>,
    o: Seq<char>,
) -> (k: Seq<char>)
    requires
        called_for(groups, intent, a, b, c, devices, ap2, delays),
        forall|i: int| 0 <= i < intent.len() ==> !(#[trigger] intent[i]).0.contains(KEY_SEP),
        intent.contains((source, o)),
        a.contains(o) || (b.contains(o) && ap2[o].addr is Some) || c.contains(o),
    ensures
        groups.contains_key(k),
        forall|s: Seq<char>| #[trigger]
            groups[k]@.sources.contains(s) <==> intent.contains((s, o)),
        a.contains(o) ==> groups[k]@.sendspin_node_names.contains(o),
        a.contains(o) && devices[o].url is Some ==> groups[k]@.sendspin_members.contains(
            (devices[o].fullname@, devices[o].url->0@),
        ),
        b.contains(o) && ap2[o].addr is Some ==> groups[k]@.ap2_members.contains(
            (
                o,
                (ap2[o].addr->0).0,
                if delays.contains_key(o) {
                    Some(delays[o])
                } else {
                    None
                },
            ),
        ),
        c.contains(o) ==> groups[k]@.pwsink_members.contains(o),
{
    let k = key_of(intent, o);
    lemma_routed_key(intent, a, b, c, ap2, source, o);
    assert(groups.contains_key(k));
    lemma_group_has(groups[k]@, intent, a, b, c, devices, ap2, delays, o);
    k
}

/// An output that some source is routed to is among those of its key.
pub proof fn lemma_routed_key(
    intent: Seq<Route>,
    a: Seq<Seq<char>>,
    b: Seq<Seq<char>>,
    c: Seq<Seq<char>>,
    ap2: Map<Seq<char>, Ap2Device>,
    source: Seq<char>,
    o: Seq<char>,
)
    requires
        intent.contains((source, o)),
        a.contains(o) || (b.contains(o) && ap2[o].addr is Some) || c.contains(o),
    ensures
        is_routed(intent, o),
        a.filter(fed_by(intent, key_of(intent, o))).len() + b.filter(
            reached(intent, key_of(intent, o), ap2),
        ).len() + c.filter(fed_by(intent, key_of(intent, o))).len() > 0,
{
    let k = key_of(intent, o);
    assert(sources_of(intent, o).contains(source));
    lemma_filter_contains(a, fed_by(intent, k), o);
    lemma_filter_contains(b, reached(intent, k, ap2), o);
    lemma_filter_contains(c, fed_by(intent, k), o);
}

proof fn lemma_first_is_fed(
    intent: Seq<Route>,
    k: Seq<char>,
    a: Seq<Seq<char>>,
    b: Seq<Seq<char>>,
    c: Seq<Seq<char>>,
    ap2: Map<Seq<char>, Ap2Device>,
)
    ensures
        ({
            let x = a.filter(fed_by(intent, k));
            let y = b.filter(reached(intent, k, ap2));
            let z = c.filter(fed_by(intent, k));
            let first = first_of(x, y, z);
            x.len() + y.len() + z.len() > 0 ==> is_routed(intent, first) && key_of(intent, first)
                == k
        }),
{
    let x = a.filter(fed_by(intent, k));
    let y = b.filter(reached(intent, k, ap2));
    let z = c.filter(fed_by(intent, k));
    let first = first_of(x, y, z);
    lemma_filter_contains(a, fed_by(intent, k), first);
    lemma_filter_contains(b, reached(intent, k, ap2), first);
    lemma_filter_contains(c, fed_by(intent, k), first);
    if x.len() > 0 {
        assert(x.contains(x[0]));
    } else if y.len() > 0 {
        assert(y.contains(y[0]));
    } else if z.len() > 0 {
        assert(z.contains(z[0]));
    }
}

/// Nothing plays in a group but what its sources are routed to: each sendspin
/// device, receiver and host of a group is a known one, every source of the group is
/// routed to it and nothing else is. A device is dialed only as one of the group's
/// devices is known.
pub proof fn law_a_group_holds_only_what_its_sources_feed(
    groups: Map<Seq<char>, DesiredGroup>,
    intent: Seq<Route>,
    a: Seq<Seq<char>>,
    b: Seq<Seq<char>>,
    c: Seq<Seq<char>>,
    devices: Map<Seq<char>, SendspinDevice>,
    ap2: Map<Seq<char>, Ap2Device>,
    delays: Map<Seq<char>, u16>,
    k: Seq<char>,
)
    requires
        called_for(groups, intent, a, b, c, devices, ap2, delays),
        forall|i: int| 0 <= i < intent.len() ==> !(#[trigger] intent[i]).0.contains(KEY_SEP),
        groups.contains_key(k),
    ensures
        groups[k]@.sources.len() > 0,
        forall|i: int|
            0 <= i < groups[k]@.sendspin_node_names.len() ==> a.contains(
                #[trigger] groups[k]@.sendspin_node_names[i],
            ),
        forall|i: int, s: Seq<char>|
            #![trigger groups[k]@.sendspin_node_names[i], groups[k]@.sources.contains(s)]
            0 <= i < groups[k]@.sendspin_node_names.len() ==> (groups[k]@.sources.contains(s)
                <==> intent.contains((s, groups[k]@.sendspin_node_names[i]))),
        forall|i: int|
            0 <= i < groups[k]@.ap2_members.len() ==> b.contains(
                (#[trigger] groups[k]@.ap2_members[i]).0,
            ),
        forall|i: int, s: Seq<char>|
            #![trigger groups[k]@.ap2_members[i], groups[k]@.sources.contains(s)]
            0 <= i < groups[k]@.ap2_members.len() ==> (groups[k]@.sources.contains(s)
                <==> intent.contains((s, groups[k]@.ap2_members[i].0))),
        forall|i: int|
            0 <= i < groups[k]@.pwsink_members.len() ==> c.contains(
                #[trigger] groups[k]@.pwsink_members[i],
            ),
        forall|i: int, s: Seq<char>|
            #![trigger groups[k]@.pwsink_members[i], groups[k]@.sources.contains(s)]
            0 <= i < groups[k]@.pwsink_members.len() ==> (groups[k]@.sources.contains(s)
                <==> intent.contains((s, groups[k]@.pwsink_members[i]))),
        forall|m: Route| #[trigger]
            groups[k]@.sendspin_members.contains(m) ==> exists|i: int|
                0 <= i < groups[k]@.sendspin_node_names.len() && devices[
                    #[trigger] groups[k]@.sendspin_node_names[i]
                ].url is Some && m == (
                    devices[groups[k]@.sendspin_node_names[i]].fullname@,
                    devices[groups[k]@.sendspin_node_names[i]].url->0@,
                ),
        forall|i: int, j: int|
            0 <= i < j < groups[k]@.sendspin_members.len() ==> !pair_lt(
                #[trigger] groups[k]@.sendspin_members[j],
                #[trigger] groups[k]@.sendspin_members[i],
            ),
{
    let g = groups[k]@;
    let x = a.filter(fed_by(intent, k));
    let y = b.filter(reached(intent, k, ap2));
    let z = c.filter(fed_by(intent, k));
    let first = first_of(x, y, z);
    lemma_first_is_fed(intent, k, a, b, c, ap2);
    assert(group_of(g, intent, x, y, z, devices, ap2, delays));
    let w = lemma_sources_in_order(intent, first);
    lemma_in_order(w);
    lemma_sources_are_plain(intent, first, w);
    assert(in_order(w.to_set()) == w);
    assert(g.sources == w);
    assert forall|i: int| 0 <= i < g.sendspin_node_names.len() implies a.contains(#[trigger] g.sendspin_node_names[i]) by {
        assert(x.contains(x[i]));
        lemma_filter_contains(a, fed_by(intent, k), x[i]);
    }
    assert forall|i: int, s: Seq<char>|
        #![trigger g.sendspin_node_names[i], g.sources.contains(s)]
        0 <= i < g.sendspin_node_names.len() implies (g.sources.contains(s) <==> intent.contains(
        (s, g.sendspin_node_names[i]),
    )) by {
        let o = x[i];
        assert(x.contains(o));
        lemma_filter_contains(a, fed_by(intent, k), o);
        lemma_group_sources(intent, k, first, o, s);
    }
    assert forall|i: int| 0 <= i < g.ap2_members.len() implies b.contains((#[trigger] g.ap2_members[i]).0) by {
        assert(y.contains(y[i]));
        assert(g.ap2_members[i] == ap2_dial(ap2, delays, y[i]));
        lemma_filter_contains(b, reached(intent, k, ap2), y[i]);
    }
    assert forall|i: int, s: Seq<char>|
        #![trigger g.ap2_members[i], g.sources.contains(s)]
        0 <= i < g.ap2_members.len() implies (g.sources.contains(s) <==> intent.contains(
        (s, g.ap2_members[i].0),
    )) by {
        let o = y[i];
        assert(g.ap2_members[i] == ap2_dial(ap2, delays, o));
        assert(y.contains(o));
        lemma_filter_contains(b, reached(intent, k, ap2), o);
        lemma_group_sources(intent, k, first, o, s);
    }
    assert forall|i: int| 0 <= i < g.pwsink_members.len() implies c.contains(#[trigger] g.pwsink_members[i]) by {
        assert(z.contains(z[i]));
        lemma_filter_contains(c, fed_by(intent, k), z[i]);
    }
    assert forall|i: int, s: Seq<char>|
        #![trigger g.pwsink_members[i], g.sources.contains(s)]
        0 <= i < g.pwsink_members.len() implies (g.sources.contains(s) <==> intent.contains(
        (s, g.pwsink_members[i]),
    )) by {
        let o = z[i];
        assert(z.contains(o));
        lemma_filter_contains(c, fed_by(intent, k), o);
        lemma_group_sources(intent, k, first, o, s);
    }
    assert forall|m: Route| #[trigger] g.sendspin_members.contains(m) implies exists|i: int|
        0 <= i < g.sendspin_node_names.len() && devices[
            #[trigger] g.sendspin_node_names[i]
        ].url is Some && m == (
            devices[g.sendspin_node_names[i]].fullname@,
            devices[g.sendspin_node_names[i]].url->0@,
        ) by {
        lemma_same_contents(g.sendspin_members, dialable(x, devices), m);
        lemma_dialable(x, devices);
        let i = choose|i: int|
            0 <= i < x.len() && devices[#[trigger] x[i]].url is Some && m == (
                devices[x[i]].fullname@,
                devices[x[i]].url->0@,
            );
        assert(g.sendspin_node_names[i] == x[i]);
    }
}

/// How a group is called.
pub open spec fn display_of(names: Seq<Seq<char>>) -> Seq<char> {
    "group: "@ + join_spec(names.map_values(|n: Seq<char>| display_name(n)), ", "@)
}

/// How a group of these devices is called.
pub(crate) fn display_for(devices: &Vec<String>) -> (r: String)
    ensures
        r@ == display_of(views(devices@)),
{
    let mut parts: Vec<String> = Vec::new();
    let ghost names = views(devices@);
    let mut i: usize = 0;
    while i < devices.len()
        invariant
            i <= devices@.len(),
            names == views(devices@),
            parts@.len() == i,
            forall|j: int| 0 <= j < i ==> (#[trigger] parts@[j])@ == display_name(names[j]),
        decreases devices.len() - i,
    {
        parts.push(output_display_name(&devices[i]));
        i += 1;
    }
    assert(views(parts@) =~= names.map_values(|n: Seq<char>| display_name(n)));
    joined2("group: ", &join(&parts, ", "))
}

/// How a group is called: after its sendspin devices.
pub fn group_display(g: &DesiredGroup) -> (r: String)
    ensures
        r@ == display_of(g@.sendspin_node_names),
{
    display_for(&g.sendspin_node_names)
}

} // verus!
