//! Groups of sendspin devices alone: devices that the same sources are routed to play
//! together, over one sink and one server that dials exactly them.
//!
//! Whom a server dials is fixed when it starts, so a group whose devices changed is
//! ended and started anew.

use crate::devices::SendspinDevice;
use crate::groups::{copy_names, display_for, display_of, group_hash, is_routed, key_number, key_of, lemma_filter_contains, lemma_group_sources, source_key, KEY_SEP};
use crate::maps::{in_order, lemma_in_order, lemma_push_contains, lemma_set_in_order, lemma_take_next, NameMap, NameSet};
use crate::names::SENDSPIN_DEV_PREFIX;
use crate::reconciler::GROUP_BASE_PORT;
use crate::routing::{routes, source_set_of, sources_of, Route, RoutingLink};
use crate::sendspin::same_names;
use crate::text::{hex, joined2, starts_with, views};
use vstd::prelude::*;

verus! {

/// The sinks of these groups are named with this prefix.
pub const SENDSPIN_GRP_PREFIX: &'static str = "sendspin-grp-";

/// A group of devices that is called for.
pub struct DeviceGroup {
    /// The sources that feed it, in order.
    pub sources: Vec<String>,
    /// Its devices, in order.
    pub device_node_names: Vec<String>,
    /// The instance names of its devices: whom its server dials.
    pub device_fullnames: NameSet,
}

/// The model of a [`DeviceGroup`].
#[verifier::ext_equal]
pub ghost struct DeviceGroupView {
    pub sources: Seq<Seq<char>>,
    pub devices: Seq<Seq<char>>,
    pub fullnames: Set<Seq<char>>,
}

impl DeviceGroup {
    pub open spec fn view(&self) -> DeviceGroupView {
        DeviceGroupView {
            sources: views(self.sources@),
            devices: views(self.device_node_names@),
            fullnames: self.device_fullnames@,
        }
    }
}

/// The devices of the group `key`.
pub open spec fn in_group(intent: Seq<Route>, key: Seq<char>) -> spec_fn(Seq<char>) -> bool {
    |o: Seq<char>|
        SENDSPIN_DEV_PREFIX@.is_prefix_of(o) && is_routed(intent, o) && key_of(intent, o) == key
}

/// The instance names of devices.
pub open spec fn fullnames_of(
    names: Seq<Seq<char>>,
    devices: Map<Seq<char>, SendspinDevice>,
) -> Set<Seq<char>> {
    Set::new(
        |f: Seq<char>|
            exists|i: int| 0 <= i < names.len() && devices[#[trigger] names[i]].fullname@ == f,
    )
}

/// The group that these devices make, which all have the same sources.
pub open spec fn device_group(
    intent: Seq<Route>,
    names: Seq<Seq<char>>,
    devices: Map<Seq<char>, SendspinDevice>,
) -> DeviceGroupView {
    DeviceGroupView {
        sources: in_order(sources_of(intent, names[0])),
        devices: names,
        fullnames: fullnames_of(names, devices),
    }
}

/// The groups that these devices call for.
pub open spec fn device_groups_of(
    m: Map<Seq<char>, DeviceGroup>,
    intent: Seq<Route>,
    names: Seq<Seq<char>>,
    devices: Map<Seq<char>, SendspinDevice>,
) -> bool {
    forall|k: Seq<char>|
        ({
            let x = names.filter(in_group(intent, k));
            &&& #[trigger] m.contains_key(k) <==> x.len() > 0
            &&& m.contains_key(k) ==> m[k]@ == device_group(intent, x, devices)
        })
}

proof fn lemma_filter_step(s: Seq<Seq<char>>, i: int, f: spec_fn(Seq<char>) -> bool)
    requires
        0 <= i < s.len(),
    ensures
        s.take(i + 1).filter(f) == if f(s[i]) {
            s.take(i).filter(f).push(s[i])
        } else {
            s.take(i).filter(f)
        },
{
    reveal(Seq::filter);
    assert(s.take(i + 1).drop_last() =~= s.take(i));
}

/// The groups that the stored routes and the devices there are call for, by key.
pub fn device_groups(intent: &[RoutingLink], devices: &NameMap<SendspinDevice>) -> (r: NameMap<
    DeviceGroup,
>)
    ensures
        device_groups_of(r@, routes(intent@), devices.names(), devices@),
{
    let ghost want = routes(intent@);
    let ghost names = devices.names();
    let mut groups: NameMap<DeviceGroup> = NameMap::new();
    let n: usize = devices.len();
    proof {
        reveal(Seq::filter);
        assert(names.take(0) =~= Seq::<Seq<char>>::empty());
    }
    let mut i: usize = 0;
    while i < n
        invariant
            i <= n,
            n == names.len(),
            names == devices.names(),
            want == routes(intent@),
            device_groups_of(groups@, want, names.take(i as int), devices@),
        decreases n - i,
    {
        let name = devices.key_at(i);
        let ghost o = names[i as int];
        let ghost before = groups@;
        let sources = source_set_of(intent, name);
        if starts_with(name, SENDSPIN_DEV_PREFIX) && !sources.is_empty() {
            let key = source_key(&sources);
            let ghost k0 = key@;
            let mut g = match groups.remove(&key) {
                Some(g) => g,
                None => {
                    let n2: usize = sources.len();
                    proof {
                        lemma_in_order(sources.names());
                    }
                    DeviceGroup {
                        sources: sources.to_vec(),
                        device_node_names: Vec::new(),
                        device_fullnames: NameSet::new(),
                    }
                },
            };
            let ghost base = g@;
            g.device_fullnames.insert(devices.value_at(i).fullname.clone());
            g.device_node_names.push(name.clone());
            proof {
                assert(sources@.contains(sources.names()[0]));
                assert(is_routed(want, o));
                assert(k0 == key_of(want, o));
                let x = names.take(i as int).filter(in_group(want, k0));
                assert(in_group(want, k0)(o));
                lemma_filter_step(names, i as int, in_group(want, k0));
                let y = x.push(o);
                if x.len() > 0 {
                    assert(y[0] == x[0]);
                } else {
                    assert(x =~= Seq::<Seq<char>>::empty());
                    assert(base.sources == in_order(sources_of(want, o)));
                    assert(base.devices =~= x);
                    assert(base.fullnames =~= fullnames_of(x, devices@));
                }
                assert(views(g.device_node_names@) =~= base.devices.push(o));
                assert forall|f: Seq<char>| #[trigger]
                    g.device_fullnames@.contains(f) <==> fullnames_of(y, devices@).contains(f) by {
                    if base.fullnames.contains(f) {
                        let j = choose|j: int|
                            0 <= j < x.len() && devices@[#[trigger] x[j]].fullname@ == f;
                        assert(y[j] == x[j]);
                    }
                    if f == devices@[o].fullname@ {
                        assert(y[x.len() as int] == o);
                    }
                    if fullnames_of(y, devices@).contains(f) {
                        let j = choose|j: int|
                            0 <= j < y.len() && devices@[#[trigger] y[j]].fullname@ == f;
                        if j < x.len() {
                            assert(devices@[x[j]].fullname@ == f);
                        }
                    }
                }
                assert(g.device_fullnames@ =~= fullnames_of(y, devices@));
                assert(g@ =~= device_group(want, y, devices@));
            }
            groups.insert(key, g);
            proof {
                assert(groups@ =~= before.insert(k0, g));
            }
        } else {
            proof {
                if sources.names().len() == 0 {
                    assert(sources@ =~= Set::<Seq<char>>::empty());
                }
            }
        }
        proof {
            assert forall|k: Seq<char>|
                ({
                    let x = names.take(i + 1).filter(in_group(want, k));
                    &&& #[trigger] groups@.contains_key(k) <==> x.len() > 0
                    &&& groups@.contains_key(k) ==> groups@[k]@ == device_group(want, x, devices@)
                }) by {
                lemma_filter_step(names, i as int, in_group(want, k));
                assert(before.contains_key(k) <==> names.take(i as int).filter(
                    in_group(want, k),
                ).len() > 0);
            }
        }
        i += 1;
    }
    assert(names.take(i as int) =~= names);
    groups
}

// ---- what runs ------------------------------------------------------------------------------

/// A group of devices that runs.
pub struct RunningDevices {
    /// Its server.
    pub server: u64,
    pub sink_node_name: String,
    pub port: u16,
    pub sources: Vec<String>,
    pub device_node_names: Vec<String>,
}

/// The groups of devices that run, by key.
pub struct DeviceGroups {
    pub running: NameMap<RunningDevices>,
}

/// A group goes on: it is called for with the same devices.
pub open spec fn goes_on(
    running: Map<Seq<char>, RunningDevices>,
    desired: Map<Seq<char>, DeviceGroup>,
    key: Seq<char>,
) -> bool {
    &&& running.contains_key(key)
    &&& desired.contains_key(key)
    &&& desired[key]@.devices == views(running[key].device_node_names@)
}

/// The servers of the groups that do not go on, in the order of `keys`.
pub open spec fn ended_servers(
    keys: Seq<Seq<char>>,
    running: Map<Seq<char>, RunningDevices>,
    desired: Map<Seq<char>, DeviceGroup>,
) -> Seq<u64>
    decreases keys.len(),
{
    if keys.len() == 0 {
        Seq::empty()
    } else {
        let rest = ended_servers(keys.drop_last(), running, desired);
        if goes_on(running, desired, keys.last()) {
            rest
        } else {
            rest.push(running[keys.last()].server)
        }
    }
}

/// The port is that of a running group.
pub open spec fn taken(running: Map<Seq<char>, RunningDevices>, port: u16) -> bool {
    exists|k: Seq<char>| #[trigger] running.contains_key(k) && running[k].port == port
}

/// What a group is started with.
pub struct StartDevices {
    pub sink_node_name: String,
    pub display: String,
    pub port: u16,
}

impl DeviceGroups {
    pub fn new() -> (r: Self)
        ensures
            r.running@ == Map::<Seq<char>, RunningDevices>::empty(),
    {
        DeviceGroups { running: NameMap::new() }
    }

    /// Ends the groups that are gone or whose devices changed, and gives back their
    /// servers, which are to be dropped.
    pub fn end_stale(&mut self, desired: &NameMap<DeviceGroup>) -> (r: Vec<u64>)
        ensures
            final(self).running@ == old(self).running@.restrict(
                Set::new(|k: Seq<char>| goes_on(old(self).running@, desired@, k)),
            ),
            r@ == ended_servers(in_order(old(self).running@.dom()), old(self).running@, desired@),
    {
        let ghost before = self.running@;
        let keys = self.running.keys();
        let ghost names = views(keys@);
        proof {
            lemma_in_order(names);
            assert(names.to_set() =~= before.dom());
        }
        let mut out: Vec<u64> = Vec::new();
        let mut i: usize = 0;
        while i < keys.len()
            invariant
                i <= keys@.len(),
                names == views(keys@),
                names.to_set() == before.dom(),
                crate::maps::sorted_names(names),
                forall|k: Seq<char>| #[trigger]
                    self.running@.contains_key(k) <==> before.contains_key(k) && (!names.take(
                        i as int,
                    ).contains(k) || goes_on(before, desired@, k)),
                forall|k: Seq<char>| #[trigger]
                    self.running@.contains_key(k) ==> self.running@[k] == before[k],
                out@ == ended_servers(names.take(i as int), before, desired@),
            decreases keys.len() - i,
        {
            let ghost k = names[i as int];
            proof {
                lemma_take_next(names, i as int);
                assert(names.take(i + 1).drop_last() =~= names.take(i as int));
                assert(names.to_set().contains(k));
                assert(before.dom().contains(k));
                if names.take(i as int).contains(k) {
                    let j = choose|j: int| 0 <= j < i && names.take(i as int)[j] == k;
                    crate::maps::lemma_sorted_unique(names, j, i as int);
                }
            }
            assert(self.running@.contains_key(k));
            let stays = match (self.running.get(&keys[i]), desired.get(&keys[i])) {
                (Some(r), Some(d)) => same_names(&d.device_node_names, &r.device_node_names),
                _ => false,
            };
            assert(stays == goes_on(before, desired@, k));
            if !stays {
                match self.running.remove(&keys[i]) {
                    Some(r) => {
                        out.push(r.server);
                    },
                    None => {},
                }
            }
            i += 1;
        }
        proof {
            assert(names.take(i as int) =~= names);
            assert forall|k: Seq<char>| names.contains(k) <==> before.contains_key(k) by {
                assert(names.to_set().contains(k) <==> before.dom().contains(k));
            }
            assert(self.running@ =~= before.restrict(
                Set::new(|k: Seq<char>| goes_on(before, desired@, k)),
            ));
        }
        out
    }

    fn alloc_port(&self) -> (r: Option<u16>)
        ensures
            match r {
                Some(p) => p >= GROUP_BASE_PORT && !taken(self.running@, p) && forall|q: u16|
                    GROUP_BASE_PORT <= q < p ==> #[trigger] taken(self.running@, q),
                None => forall|q: u16| q >= GROUP_BASE_PORT ==> #[trigger] taken(self.running@, q),
            },
    {
        let mut port: u16 = GROUP_BASE_PORT;
        loop
            invariant
                port >= GROUP_BASE_PORT,
                forall|q: u16| GROUP_BASE_PORT <= q < port ==> #[trigger] taken(self.running@, q),
            decreases u16::MAX - port,
        {
            if !self.port_taken(port) {
                return Some(port);
            }
            if port == u16::MAX {
                return None;
            }
            port = port + 1;
        }
    }

    fn port_taken(&self, port: u16) -> (r: bool)
        ensures
            r == taken(self.running@, port),
    {
        let n: usize = self.running.len();
        let ghost names = self.running.names();
        let mut i: usize = 0;
        while i < n
            invariant
                i <= n,
                n == names.len(),
                names == self.running.names(),
                forall|j: int| 0 <= j < i ==> self.running@[#[trigger] names[j]].port != port,
            decreases n - i,
        {
            let key = self.running.key_at(i);
            if self.running.value_at(i).port == port {
                assert(self.running@.contains_key(key@));
                return true;
            }
            i += 1;
        }
        proof {
            assert forall|k: Seq<char>| #[trigger]
                self.running@.contains_key(k) implies self.running@[k].port != port by {
                assert(names.contains(k));
                let m = choose|m: int| 0 <= m < names.len() && names[m] == k;
                assert(self.running@[names[m]].port != port);
            }
        }
        false
    }

    /// What the group `key` is started with, `None` where it runs already. Its sink is
    /// named after its key, and its port is the lowest that no group has.
    pub fn start_for(&self, key: &str, d: &DeviceGroup) -> (r: Option<StartDevices>)
        requires
            exists|q: u16| q >= GROUP_BASE_PORT && !#[trigger] taken(self.running@, q),
        ensures
            r is Some <==> !self.running@.contains_key(key@),
            r matches Some(s) ==> {
                &&& s.sink_node_name@ == SENDSPIN_GRP_PREFIX@ + hex(key_number(key@) as int, 16)
                &&& s.display@ == display_of(d@.devices)
                &&& s.port >= GROUP_BASE_PORT
                &&& !taken(self.running@, s.port)
                &&& forall|q: u16|
                    GROUP_BASE_PORT <= q < s.port ==> #[trigger] taken(self.running@, q)
            },
    {
        if self.running.contains_key(key) {
            return None;
        }
        match self.alloc_port() {
            Some(port) => Some(
                StartDevices {
                    sink_node_name: joined2(SENDSPIN_GRP_PREFIX, &group_hash(key)),
                    display: display_for(&d.device_node_names),
                    port,
                },
            ),
            None => {
                assert(false);
                None
            },
        }
    }

    /// Notes that a group was started.
    pub fn started(&mut self, key: &str, d: &DeviceGroup, start: StartDevices, server: u64)
        ensures
            final(self).running@.dom() == old(self).running@.dom().insert(key@),
            forall|k: Seq<char>|
                k != key@ && #[trigger] old(self).running@.contains_key(k)
                    ==> final(self).running@[k] == old(self).running@[k],
            ({
                let g = final(self).running@[key@];
                &&& g.server == server
                &&& g.sink_node_name@ == start.sink_node_name@
                &&& g.port == start.port
                &&& views(g.sources@) == d@.sources
                &&& views(g.device_node_names@) == d@.devices
            }),
    {
        let g = RunningDevices {
            server,
            sink_node_name: start.sink_node_name,
            port: start.port,
            sources: copy_names(&d.sources),
            device_node_names: copy_names(&d.device_node_names),
        };
        self.running.insert(String::from_str(key), g);
        assert(self.running@.dom() =~= old(self).running@.dom().insert(key@));
    }
}

/// A group that is called for with the devices it plays to is left alone, and every
/// other running group ends.
pub proof fn law_unchanged_device_groups_run_on(
    running: Map<Seq<char>, RunningDevices>,
    desired: Map<Seq<char>, DeviceGroup>,
    key: Seq<char>,
)
    requires
        running.contains_key(key),
    ensures
        ({
            let left = running.restrict(Set::new(|k: Seq<char>| goes_on(running, desired, k)));
            &&& left.contains_key(key) <==> desired.contains_key(key) && desired[key]@.devices
                == views(running[key].device_node_names@)
            &&& left.contains_key(key) ==> left[key] == running[key]
        }),
{
}

/// Every sendspin device that some source is routed to plays in a group that has
/// exactly its sources and dials it by its instance name.
pub proof fn law_every_routed_device_has_its_group(
    m: Map<Seq<char>, DeviceGroup>,
    intent: Seq<Route>,
    names: Seq<Seq<char>>,
    devices: Map<Seq<char>, SendspinDevice>,
    source: Seq<char>,
    o: Seq<char>,
) -> (k: Seq<char>)
    requires
        device_groups_of(m, intent, names, devices),
        forall|i: int| 0 <= i < intent.len() ==> !(#[trigger] intent[i]).0.contains(KEY_SEP),
        names.contains(o),
        SENDSPIN_DEV_PREFIX@.is_prefix_of(o),
        intent.contains((source, o)),
    ensures
        m.contains_key(k),
        m[k]@.devices.contains(o),
        m[k]@.fullnames.contains(devices[o].fullname@),
        forall|s: Seq<char>| #[trigger] m[k]@.sources.contains(s) <==> intent.contains((s, o)),
{
    let k = key_of(intent, o);
    let x = names.filter(in_group(intent, k));
    assert(sources_of(intent, o).contains(source));
    lemma_filter_contains(names, in_group(intent, k), o);
    assert(x.len() > 0);
    assert(m.contains_key(k));
    let i = choose|i: int| 0 <= i < x.len() && x[i] == o;
    assert(devices[x[i]].fullname@ == devices[o].fullname@);
    assert(x.contains(x[0]));
    lemma_filter_contains(names, in_group(intent, k), x[0]);
    assert forall|s: Seq<char>| #[trigger] m[k]@.sources.contains(s) <==> intent.contains(
        (s, o),
    ) by {
        lemma_group_sources(intent, k, x[0], o, s);
    }
    k
}

/// Nothing plays in a group of devices but what its sources are routed to.
pub proof fn law_a_device_group_holds_only_what_its_sources_feed(
    m: Map<Seq<char>, DeviceGroup>,
    intent: Seq<Route>,
    names: Seq<Seq<char>>,
    devices: Map<Seq<char>, SendspinDevice>,
    k: Seq<char>,
    i: int,
)
    requires
        device_groups_of(m, intent, names, devices),
        forall|i: int| 0 <= i < intent.len() ==> !(#[trigger] intent[i]).0.contains(KEY_SEP),
        m.contains_key(k),
        0 <= i < m[k]@.devices.len(),
    ensures
        names.contains(m[k]@.devices[i]),
        SENDSPIN_DEV_PREFIX@.is_prefix_of(m[k]@.devices[i]),
        forall|s: Seq<char>| #[trigger]
            m[k]@.sources.contains(s) <==> intent.contains((s, m[k]@.devices[i])),
        forall|f: Seq<char>| #[trigger]
            m[k]@.fullnames.contains(f) <==> exists|j: int|
                0 <= j < m[k]@.devices.len() && devices[#[trigger] m[k]@.devices[j]].fullname@ == f,
{
    let x = names.filter(in_group(intent, k));
    let o = x[i];
    assert(x.contains(o));
    assert(x.contains(x[0]));
    lemma_filter_contains(names, in_group(intent, k), o);
    lemma_filter_contains(names, in_group(intent, k), x[0]);
    assert forall|s: Seq<char>| #[trigger] m[k]@.sources.contains(s) <==> intent.contains(
        (s, o),
    ) by {
        lemma_group_sources(intent, k, x[0], o, s);
    }
}

proof fn lemma_ended_servers(
    keys: Seq<Seq<char>>,
    running: Map<Seq<char>, RunningDevices>,
    desired: Map<Seq<char>, DeviceGroup>,
    h: u64,
)
    ensures
        ended_servers(keys, running, desired).contains(h) <==> exists|i: int|
            0 <= i < keys.len() && !goes_on(running, desired, #[trigger] keys[i])
                && running[keys[i]].server == h,
    decreases keys.len(),
{
    if keys.len() > 0 {
        let front = keys.drop_last();
        lemma_ended_servers(front, running, desired, h);
        let before = ended_servers(front, running, desired);
        lemma_push_contains(before, running[keys.last()].server);
        if before.contains(h) {
            let i = choose|i: int|
                0 <= i < front.len() && !goes_on(running, desired, #[trigger] front[i])
                    && running[front[i]].server == h;
            assert(keys[i] == front[i]);
        }
        if exists|i: int|
            0 <= i < keys.len() && !goes_on(running, desired, #[trigger] keys[i])
                && running[keys[i]].server == h {
            let i = choose|i: int|
                0 <= i < keys.len() && !goes_on(running, desired, #[trigger] keys[i])
                    && running[keys[i]].server == h;
            if i < front.len() {
                assert(front[i] == keys[i]);
            }
        }
        assert(keys[keys.len() - 1] == keys.last());
    }
}

/// The server of every group that does not run on is given back to be dropped: of each
/// that is not called for any more, and of each that is called for with other devices.
/// No other server is.
pub proof fn law_stale_servers_are_dropped(
    running: Map<Seq<char>, RunningDevices>,
    desired: Map<Seq<char>, DeviceGroup>,
    h: u64,
)
    requires
        running.dom().finite(),
    ensures
        ended_servers(in_order(running.dom()), running, desired).contains(h) <==> exists|
            k: Seq<char>,
        | #[trigger]
            running.contains_key(k) && running[k].server == h && !(desired.contains_key(k)
                && desired[k]@.devices == views(running[k].device_node_names@)),
{
    let keys = in_order(running.dom());
    lemma_set_in_order(running.dom());
    lemma_ended_servers(keys, running, desired, h);
    assert forall|k: Seq<char>| #[trigger] keys.contains(k) <==> running.contains_key(k) by {
        assert(keys.to_set().contains(k) <==> keys.contains(k));
    }
    if ended_servers(keys, running, desired).contains(h) {
        let i = choose|i: int|
            0 <= i < keys.len() && !goes_on(running, desired, #[trigger] keys[i])
                && running[keys[i]].server == h;
        assert(keys.contains(keys[i]));
        assert(running.contains_key(keys[i]));
    }
    if exists|k: Seq<char>| #[trigger]
        running.contains_key(k) && running[k].server == h && !(desired.contains_key(k)
            && desired[k]@.devices == views(running[k].device_node_names@)) {
        let k = choose|k: Seq<char>| #[trigger]
            running.contains_key(k) && running[k].server == h && !(desired.contains_key(k)
                && desired[k]@.devices == views(running[k].device_node_names@));
        assert(keys.contains(k));
        let i = choose|i: int| 0 <= i < keys.len() && keys[i] == k;
        assert(!goes_on(running, desired, keys[i]));
    }
}

} // verus!
