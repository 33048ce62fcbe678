//! Discovered network players: sendspin devices and AirPlay 2 receivers, and the
//! presence of sendspin devices as probing shows it.

use crate::maps::NameMap;
use crate::names::{device_node_name, slug, SENDSPIN_DEV_PREFIX};
use crate::rtp::Ipv4;
use crate::text::{before_first, before_first_spec, decimal, opt_view, push_decimal, starts_with, trim, trimmed};
use vstd::prelude::*;

verus! {

/// An IP address.
#[derive(Clone, Copy, Debug, PartialEq, Eq, Structural)]
pub enum Ip {
    V4(Ipv4),
    V6(u128),
}

/// A discovered sendspin device.
pub struct SendspinDevice {
    /// The mDNS instance name, which stays the same.
    pub fullname: String,
    pub display_name: String,
    /// Where its server listens, once an IPv4 address is resolved.
    pub addr: Option<(Ip, u16)>,
    /// Whether it is online, as the liveness probe judges it.
    pub present: bool,
    /// Where to dial it, once resolved.
    pub url: Option<String>,
    /// The codecs it decodes at the wire format; empty while it has not said.
    pub supported_codecs: Vec<String>,
    /// The buffer it asks to be kept stocked with, in milliseconds.
    pub min_buffer_ms: Option<u32>,
    /// The start-up lead it would like, in milliseconds. Not enforced.
    pub required_lead_time_ms: Option<u32>,
}

/// A discovered AirPlay 2 receiver.
pub struct Ap2Device {
    pub fullname: String,
    pub display_name: String,
    pub model: Option<String>,
    pub features: Option<u64>,
    pub addr: Option<(Ip, u16)>,
    pub present: bool,
}

// ---- what a resolved service says --------------------------------------------

/// Addresses another machine can be dialed at: neither loopback (127.x.x.x) nor
/// link-local (169.254.x.x).
pub open spec fn dialable(ip: Ipv4) -> bool {
    ip.a != 127 && !(ip.a == 169 && ip.b == 254)
}

/// The first dialable address.
pub open spec fn first_dialable(addrs: Seq<Ipv4>) -> Option<Ipv4>
    decreases addrs.len(),
{
    if addrs.len() == 0 {
        None
    } else if dialable(addrs[0]) {
        Some(addrs[0])
    } else {
        first_dialable(addrs.drop_first())
    }
}

/// An address in dotted decimal.
pub open spec fn dotted(ip: Ipv4) -> Seq<char> {
    decimal(ip.a as int) + "."@ + decimal(ip.b as int) + "."@ + decimal(ip.c as int) + "."@
        + decimal(ip.d as int)
}

/// Where to dial a device: its first dialable address, its port and the path it
/// advertises. A device that advertises no absolute path is not dialable.
pub open spec fn dial_url(addrs: Seq<Ipv4>, port: u16, path: Option<Seq<char>>) -> Option<
    Seq<char>,
> {
    if first_dialable(addrs) is Some && path is Some && "/"@.is_prefix_of(path->0) {
        Some(
            "ws://"@ + dotted(first_dialable(addrs)->0) + ":"@ + decimal(port as int) + path->0,
        )
    } else {
        None
    }
}

fn push_dotted(out: &mut String, ip: Ipv4)
    ensures
        final(out)@ == old(out)@ + dotted(ip),
{
    push_decimal(out, ip.a as u64);
    out.append(".");
    push_decimal(out, ip.b as u64);
    out.append(".");
    push_decimal(out, ip.c as u64);
    out.append(".");
    push_decimal(out, ip.d as u64);
    assert(out@ =~= old(out)@ + dotted(ip));
}

/// Where to dial a device, from its resolved addresses, port and path.
pub fn url_from_service(addrs: &Vec<Ipv4>, port: u16, path: Option<&str>) -> (r: Option<String>)
    ensures
        opt_view(r) == dial_url(
            addrs@,
            port,
            match path {
                Some(p) => Some(p@),
                None => None,
            },
        ),
{
    let mut i: usize = 0;
    assert(addrs@.skip(0) =~= addrs@);
    while i < addrs.len()
        invariant
            i <= addrs@.len(),
            first_dialable(addrs@) == first_dialable(addrs@.skip(i as int)),
        decreases addrs.len() - i,
    {
        let ip = addrs[i];
        assert(addrs@.skip(i as int).drop_first() =~= addrs@.skip(i + 1));
        if ip.a != 127 && !(ip.a == 169 && ip.b == 254) {
            return match path {
                Some(p) => {
                    if !starts_with(p, "/") {
                        None
                    } else {
                        let mut u = String::from_str("ws://");
                        push_dotted(&mut u, ip);
                        u.append(":");
                        push_decimal(&mut u, port as u64);
                        u.append(p);
                        Some(u)
                    }
                },
                None => None,
            };
        }
        i += 1;
    }
    None
}

/// The server address of a device: its first address and its port.
pub fn addr_from_service(addrs: &Vec<Ipv4>, port: u16) -> (r: Option<(Ip, u16)>)
    ensures
        r == if addrs@.len() > 0 {
            Some((Ip::V4(addrs@[0]), port))
        } else {
            None
        },
{
    if addrs.len() > 0 {
        Some((Ip::V4(addrs[0]), port))
    } else {
        None
    }
}

/// The name to show for a service: the name it advertises, without the white
/// space round it and unless nothing is left, else the label of its instance name
/// in front of the service type.
pub open spec fn service_name(
    name_txt: Option<Seq<char>>,
    fullname: Seq<char>,
    service: Seq<char>,
) -> Seq<char> {
    if name_txt is Some && trimmed(name_txt->0).len() > 0 {
        trimmed(name_txt->0)
    } else {
        trimmed(before_first_spec(fullname, service))
    }
}

/// The name to show for a sendspin device.
pub fn display_name_from_service(name_txt: Option<&str>, fullname: &str) -> (r: String)
    ensures
        r@ == service_name(
            match name_txt {
                Some(n) => Some(n@),
                None => None,
            },
            fullname@,
            "._sendspin._tcp"@,
        ),
{
    if let Some(name) = name_txt {
        let t = trim(name);
        if !t.as_str().is_empty() {
            return t;
        }
    }
    let label = before_first(fullname, "._sendspin._tcp");
    trim(&label)
}

/// Takes a resolved device in, and says whether anybody has to hear of it: a new
/// device, or one that was offline. A known device keeps what a resolve does not
/// bring: its name, its capabilities, and the address and URL where none is given.
pub fn note_resolved(
    devices: &mut NameMap<SendspinDevice>,
    display_name: String,
    fullname: String,
    addr: Option<(Ip, u16)>,
    url: Option<String>,
) -> (notify: bool)
    ensures
        final(devices)@.dom() == old(devices)@.dom().insert(
            SENDSPIN_DEV_PREFIX@ + slug(display_name@),
        ),
        ({
            let node = SENDSPIN_DEV_PREFIX@ + slug(display_name@);
            let new = final(devices)@[node];
            &&& final(devices)@.remove(node) == old(devices)@.remove(node)
            &&& new.present
            &&& new.fullname == fullname
            &&& if old(devices)@.contains_key(node) {
                let was = old(devices)@[node];
                &&& notify == !was.present
                &&& new.display_name == was.display_name
                &&& new.addr == if addr is Some {
                    addr
                } else {
                    was.addr
                }
                &&& new.url == if url is Some {
                    url
                } else {
                    was.url
                }
                &&& new.supported_codecs == was.supported_codecs
                &&& new.min_buffer_ms == was.min_buffer_ms
                &&& new.required_lead_time_ms == was.required_lead_time_ms
            } else {
                &&& notify
                &&& new.display_name == display_name
                &&& new.addr == addr
                &&& new.url == url
                &&& new.supported_codecs@.len() == 0
                &&& new.min_buffer_ms is None
                &&& new.required_lead_time_ms is None
            }
        }),
{
    let node = device_node_name(&display_name);
    let ghost key = node@;
    let ghost before = devices@;
    match devices.remove(&node) {
        Some(was) => {
            let came_online = !was.present;
            let new = SendspinDevice {
                fullname,
                display_name: was.display_name,
                addr: if addr.is_some() {
                    addr
                } else {
                    was.addr
                },
                present: true,
                url: if url.is_some() {
                    url
                } else {
                    was.url
                },
                supported_codecs: was.supported_codecs,
                min_buffer_ms: was.min_buffer_ms,
                required_lead_time_ms: was.required_lead_time_ms,
            };
            devices.insert(node, new);
            proof {
                assert(devices@.dom() =~= before.dom().insert(key));
                assert(devices@.remove(key) =~= before.remove(key));
            }
            came_online
        },
        None => {
            let new = SendspinDevice {
                fullname,
                display_name,
                addr,
                present: true,
                url,
                supported_codecs: Vec::new(),
                min_buffer_ms: None,
                required_lead_time_ms: None,
            };
            devices.insert(node, new);
            proof {
                assert(devices@.dom() =~= before.dom().insert(key));
                assert(devices@.remove(key) =~= before.remove(key));
            }
            true
        },
    }
}

/// Sets whether a device is online; a device that is gone is left out.
pub fn set_present(devices: &mut NameMap<SendspinDevice>, node_name: &str, present: bool)
    ensures
        final(devices)@ == if old(devices)@.contains_key(node_name@) {
            old(devices)@.insert(
                node_name@,
                SendspinDevice { present, ..old(devices)@[node_name@] },
            )
        } else {
            old(devices)@
        },
{
    let ghost before = devices@;
    match devices.remove(node_name) {
        Some(mut d) => {
            d.present = present;
            devices.insert(String::from_str(node_name), d);
            assert(devices@ =~= before.insert(
                node_name@,
                SendspinDevice { present, ..before[node_name@] },
            ));
        },
        None => {
            assert(devices@ =~= before);
        },
    }
}

// ---- liveness ----------------------------------------------------------------

/// Failed probes in a row after which a device counts as offline.
pub const FAIL_THRESHOLD: u32 = 3;

/// How long a device may stay offline before it is dropped, in milliseconds.
pub const REMOVE_AFTER_MS: u64 = 300000;

/// What the probes so far say of the devices. Times are in milliseconds.
pub struct LivenessTracker {
    /// Failed probes in a row.
    pub fails: NameMap<u32>,
    /// Since when a device counts as offline.
    pub offline_since: NameMap<u64>,
}

/// What one probe of a device comes to.
#[derive(Clone, Copy, Debug, PartialEq, Eq, Structural)]
pub struct Judgement {
    /// The presence to set, where it changes.
    pub set_present: Option<bool>,
    /// Whether the device is to be dropped.
    pub remove: bool,
}

/// The failed probes in a row after one more, as far as they can be counted.
pub open spec fn fails_after(fails: Map<Seq<char>, u32>, node: Seq<char>) -> u32 {
    if !fails.contains_key(node) {
        1
    } else if fails[node] < u32::MAX {
        (fails[node] + 1) as u32
    } else {
        u32::MAX
    }
}

/// Since when a device that failed again counts as offline.
pub open spec fn offline_from(since: Map<Seq<char>, u64>, node: Seq<char>, now: u64) -> u64 {
    if since.contains_key(node) {
        since[node]
    } else {
        now
    }
}

impl LivenessTracker {
    pub fn new() -> (r: Self)
        ensures
            r.fails@ == Map::<Seq<char>, u32>::empty(),
            r.offline_since@ == Map::<Seq<char>, u64>::empty(),
    {
        LivenessTracker { fails: NameMap::new(), offline_since: NameMap::new() }
    }

    /// Judges one probe. A device that answers is online at once. One that does
    /// not is offline from the third failure in a row, and is dropped once it has
    /// been offline for long enough.
    pub fn judge(&mut self, node_name: &str, was_present: bool, alive: bool, now: u64) -> (r:
        Judgement)
        ensures
            alive ==> {
                &&& r.remove == false
                &&& r.set_present == if was_present {
                    None
                } else {
                    Some(true)
                }
                &&& final(self).fails@ == old(self).fails@.remove(node_name@)
                &&& final(self).offline_since@ == old(self).offline_since@.remove(node_name@)
            },
            !alive ==> {
                let f = fails_after(old(self).fails@, node_name@);
                let since = offline_from(old(self).offline_since@, node_name@, now);
                &&& final(self).fails@ == old(self).fails@.insert(node_name@, f)
                &&& if f >= FAIL_THRESHOLD {
                    &&& final(self).offline_since@ == old(self).offline_since@.insert(
                        node_name@,
                        since,
                    )
                    &&& r.set_present == if was_present {
                        Some(false)
                    } else {
                        None
                    }
                    &&& r.remove == (now - since >= REMOVE_AFTER_MS)
                } else {
                    &&& final(self).offline_since@ == old(self).offline_since@
                    &&& r.set_present is None
                    &&& !r.remove
                }
            },
            !alive && (!old(self).fails@.contains_key(node_name@) || old(self).fails@[node_name@]
                < 2) ==> r.set_present is None && !r.remove,
            !alive && was_present && old(self).fails@.contains_key(node_name@) && old(
                self).fails@[node_name@] >= 2 ==> r.set_present == Some(false),
            !alive && old(self).fails@.contains_key(node_name@) && old(self).fails@[node_name@] >= 2
                && old(self).offline_since@.contains_key(node_name@) ==> r.remove == (now - old(
                self).offline_since@[node_name@] >= 300_000),
    {
        if alive {
            self.fails.remove(node_name);
            self.offline_since.remove(node_name);
            return Judgement {
                set_present: if was_present {
                    None
                } else {
                    Some(true)
                },
                remove: false,
            };
        }
        let f: u32 = match self.fails.get(node_name) {
            Some(n) => n.saturating_add(1),
            None => 1,
        };
        self.fails.insert(String::from_str(node_name), f);
        if f < FAIL_THRESHOLD {
            return Judgement { set_present: None, remove: false };
        }
        let since: u64 = match self.offline_since.get(node_name) {
            Some(t) => *t,
            None => now,
        };
        self.offline_since.insert(String::from_str(node_name), since);
        Judgement {
            set_present: if was_present {
                Some(false)
            } else {
                None
            },
            remove: now >= since && now - since >= REMOVE_AFTER_MS,
        }
    }

    /// Forgets a device that was dropped.
    pub fn forget(&mut self, node_name: &str)
        ensures
            final(self).fails@ == old(self).fails@.remove(node_name@),
            final(self).offline_since@ == old(self).offline_since@.remove(node_name@),
    {
        self.fails.remove(node_name);
        self.offline_since.remove(node_name);
    }
}

// ---- laws -------------------------------------------------------------------------

/// A device is dialed at the first of its addresses that another machine can reach,
/// on the port and the path it advertises; one without such an address, or without an
/// absolute path, is not dialed.
pub proof fn law_devices_are_dialed_where_they_can_be_reached(
    addrs: Seq<Ipv4>,
    port: u16,
    path: Option<Seq<char>>,
    k: int,
)
    requires
        0 <= k <= addrs.len(),
        forall|i: int|
            0 <= i < k ==> (#[trigger] addrs[i]).a == 127 || (addrs[i].a == 169 && addrs[i].b
                == 254),
        k < addrs.len() ==> addrs[k].a != 127 && !(addrs[k].a == 169 && addrs[k].b == 254),
    ensures
        k < addrs.len() && path is Some && path->0.len() > 0 && path->0[0] == '/' ==> dial_url(
            addrs,
            port,
            path,
        ) == Some("ws://"@ + dotted(addrs[k]) + ":"@ + decimal(port as int) + path->0),
        k == addrs.len() || path is None || path->0.len() == 0 || path->0[0] != '/' ==> dial_url(
            addrs,
            port,
            path,
        ) is None,
        k < addrs.len() ==> dotted(addrs[k]) == decimal(addrs[k].a as int) + "."@ + decimal(addrs[k].b as int) + "."@
            + decimal(addrs[k].c as int) + "."@ + decimal(addrs[k].d as int),
{
    lemma_first_dialable(addrs, k);
    reveal_strlit("/");
    if path is Some {
        let p = path->0;
        if p.len() > 0 && p[0] == '/' {
            assert("/"@ =~= p.subrange(0, 1));
            assert("/"@.is_prefix_of(p));
        }
        if "/"@.is_prefix_of(p) {
            assert(p.len() >= 1);
            assert(p.subrange(0, 1)[0] == p[0]);
        }
    }
}

proof fn lemma_first_dialable(addrs: Seq<Ipv4>, k: int)
    requires
        0 <= k <= addrs.len(),
        forall|i: int|
            0 <= i < k ==> (#[trigger] addrs[i]).a == 127 || (addrs[i].a == 169 && addrs[i].b
                == 254),
        k < addrs.len() ==> addrs[k].a != 127 && !(addrs[k].a == 169 && addrs[k].b == 254),
    ensures
        k < addrs.len() ==> first_dialable(addrs) == Some(addrs[k]),
        k == addrs.len() ==> first_dialable(addrs) is None,
    decreases addrs.len(),
{
    if k > 0 {
        let rest = addrs.drop_first();
        assert(addrs[0].a == 127 || (addrs[0].a == 169 && addrs[0].b == 254));
        assert forall|i: int| 0 <= i < k - 1 implies (#[trigger] rest[i]).a == 127 || (rest[i].a
            == 169 && rest[i].b == 254) by {
            assert(rest[i] == addrs[i + 1]);
        }
        lemma_first_dialable(rest, k - 1);
    }
}

/// How many probes in a row have failed, after `n` more failures.
pub open spec fn fails_after_n(fails: Map<Seq<char>, u32>, node: Seq<char>, n: nat) -> Map<
    Seq<char>,
    u32,
>
    decreases n,
{
    if n == 0 {
        fails
    } else {
        let before = fails_after_n(fails, node, (n - 1) as nat);
        before.insert(node, fails_after(before, node))
    }
}

/// Every failed probe in a row is counted: a device that answered last, or was never
/// probed, has as many as failed since.
pub proof fn law_failures_in_a_row_are_counted(
    fails: Map<Seq<char>, u32>,
    node: Seq<char>,
    n: nat,
)
    requires
        !fails.contains_key(node),
        n <= u32::MAX,
    ensures
        n > 0 ==> fails_after_n(fails, node, n).contains_key(node) && fails_after_n(
            fails,
            node,
            n,
        )[node] == n,
        n == 0 ==> !fails_after_n(fails, node, n).contains_key(node),
    decreases n,
{
    if n > 0 {
        law_failures_in_a_row_are_counted(fails, node, (n - 1) as nat);
    }
}

/// A device that stays offline counts as offline from when it first was: later
/// failures do not move that time, so it is dropped five minutes after it.
pub proof fn law_offline_is_timed_from_the_first(
    since: Map<Seq<char>, u64>,
    node: Seq<char>,
    now: u64,
    later: u64,
)
    ensures
        !since.contains_key(node) ==> offline_from(since, node, now) == now,
        offline_from(since.insert(node, offline_from(since, node, now)), node, later)
            == offline_from(since, node, now),
{
}

} // verus!
