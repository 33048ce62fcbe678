//! RTP sources: which source modules are loaded, and the watchdog that reloads
//! one that has silently left its multicast group.

use crate::graph::{NodeInfo, RegistryState};
use crate::maps::{sorted_names, NameMap, NameSet};
use crate::modules::{is_rtp_source_node, rtp_source_node};
use crate::text::{chars_of, decimal, digit, hex, hex_of, join_spec, lemma_digits_read_back, lemma_split_join, lower_all, number_of, parse_u32, parsed_u32, same_ignoring_case, split, split_spec, to_upper, upper, upper_all, views, words, words_spec};
use vstd::prelude::*;

verus! {

// ---- addresses ---------------------------------------------------------------

/// An IPv4 address, octet by octet.
#[derive(Clone, Copy, Debug, PartialEq, Eq, Structural)]
pub struct Ipv4 {
    pub a: u8,
    pub b: u8,
    pub c: u8,
    pub d: u8,
}

/// The octet that `s` spells: one to three digits, no leading zero, below 256.
pub open spec fn octet(s: Seq<char>) -> Option<u8> {
    if 1 <= s.len() <= 3 && crate::text::all_digits(s) && !(s.len() > 1 && s[0] == '0')
        && number_of(s) <= 255 {
        Some(number_of(s) as u8)
    } else {
        None
    }
}

/// The address that `s` spells in dotted decimal.
pub open spec fn ipv4_of(s: Seq<char>) -> Option<Ipv4> {
    let p = split_spec(s, '.');
    if p.len() == 4 && octet(p[0]) is Some && octet(p[1]) is Some && octet(p[2]) is Some && octet(
        p[3],
    ) is Some {
        Some(Ipv4 { a: octet(p[0])->0, b: octet(p[1])->0, c: octet(p[2])->0, d: octet(p[3])->0 })
    } else {
        None
    }
}

proof fn lemma_short_number(s: Seq<char>)
    requires
        crate::text::all_digits(s),
        s.len() <= 3,
    ensures
        number_of(s) >= 0,
        s.len() == 0 ==> number_of(s) == 0,
        s.len() == 1 ==> number_of(s) <= 9,
        s.len() == 2 ==> number_of(s) <= 99,
        s.len() == 3 ==> number_of(s) <= 999,
    decreases s.len(),
{
    if s.len() > 0 {
        assert(s.last() == s[s.len() - 1]);
        lemma_short_number(s.drop_last());
    }
}

fn parse_octet(s: &str) -> (r: Option<u8>)
    ensures
        r == octet(s@),
{
    let x = chars_of(s);
    if x.len() == 0 || x.len() > 3 {
        return None;
    }
    if x.len() > 1 && x[0] == '0' {
        return None;
    }
    if x[0] == '+' {
        assert(!crate::text::all_digits(s@));
        return None;
    }
    proof {
        if crate::text::all_digits(s@) {
            lemma_short_number(s@);
        }
    }
    match parse_u32(s) {
        Some(n) => if n <= 255 {
            Some(n as u8)
        } else {
            None
        },
        None => None,
    }
}

/// Reads an address in dotted decimal.
pub fn parse_ipv4(s: &str) -> (r: Option<Ipv4>)
    ensures
        r == ipv4_of(s@),
{
    let p = split(s, '.');
    if p.len() != 4 {
        assert(views(p@).len() == p@.len());
        return None;
    }
    assert(views(p@)[0] == p@[0]@ && views(p@)[1] == p@[1]@ && views(p@)[2] == p@[2]@ && views(
        p@,
    )[3] == p@[3]@);
    match (parse_octet(&p[0]), parse_octet(&p[1]), parse_octet(&p[2]), parse_octet(&p[3])) {
        (Some(a), Some(b), Some(c), Some(d)) => Some(Ipv4 { a, b, c, d }),
        _ => None,
    }
}

/// The groups 224.0.0.0 to 239.255.255.255.
pub open spec fn multicast(ip: Ipv4) -> bool {
    224 <= ip.a <= 239
}

/// The multicast group a source address names, where it is one.
pub open spec fn group_of(source_addr: Seq<char>) -> Option<Ipv4> {
    match ipv4_of(source_addr) {
        Some(ip) => if multicast(ip) {
            Some(ip)
        } else {
            None
        },
        None => None,
    }
}

/// The multicast group a source address names: only such a source can lose its
/// membership, so only such a one is watched.
pub fn multicast_group(source_addr: &str) -> (r: Option<Ipv4>)
    ensures
        r == group_of(source_addr@),
{
    match parse_ipv4(source_addr) {
        Some(ip) => if ip.a >= 224 && ip.a <= 239 {
            Some(ip)
        } else {
            None
        },
        None => None,
    }
}

/// An address as the kernel's group table spells it on a little-endian machine:
/// the octets from last to first, two upper-case digits each.
pub open spec fn le_hex_spec(ip: Ipv4) -> Seq<char> {
    upper_all(
        hex(ip.d as int, 2) + hex(ip.c as int, 2) + hex(ip.b as int, 2) + hex(ip.a as int, 2),
    )
}

/// An address as the kernel's group table spells it.
pub fn le_hex(ip: Ipv4) -> (r: String)
    ensures
        r@ == le_hex_spec(ip),
{
    let octets: Vec<u8> = vec![ip.d, ip.c, ip.b, ip.a];
    let h = hex_of(&octets);
    proof {
        reveal_with_fuel(crate::text::hex_bytes, 5);
        let o = octets@;
        assert(o.drop_last() =~= seq![ip.d, ip.c, ip.b]);
        assert(o.drop_last().drop_last() =~= seq![ip.d, ip.c]);
        assert(o.drop_last().drop_last().drop_last() =~= seq![ip.d]);
        assert(o.drop_last().drop_last().drop_last().drop_last() =~= Seq::<u8>::empty());
        assert(h@ =~= hex(ip.d as int, 2) + hex(ip.c as int, 2) + hex(ip.b as int, 2) + hex(
            ip.a as int,
            2,
        ));
    }
    to_upper(&h)
}

// ---- group membership --------------------------------------------------------

/// The joined sockets one row of the group table counts for `want`, where the
/// row is for that group.
pub open spec fn row_users(row: Seq<char>, want: Seq<char>) -> Option<u32> {
    let w = words_spec(row);
    if w.len() >= 2 && lower_all(w[0]) == lower_all(want) {
        parsed_u32(w[1])
    } else {
        None
    }
}

/// The joined sockets all rows together count for `want`, `None` where no row
/// does.
pub open spec fn table_users(rows: Seq<Seq<char>>, want: Seq<char>) -> Option<int>
    decreases rows.len(),
{
    if rows.len() == 0 {
        None
    } else {
        let rest = table_users(rows.drop_last(), want);
        match row_users(rows.last(), want) {
            Some(u) => Some(u + match rest {
                Some(n) => n,
                None => 0,
            }),
            None => rest,
        }
    }
}

/// The sockets that are joined to `group` on any interface, from the kernel's
/// group table. `None` where the group is in no row. A sum beyond `u32::MAX` is
/// reported as that.
pub fn group_users(igmp: &str, group: Ipv4) -> (r: Option<u32>)
    ensures
        match table_users(split_spec(igmp@, '\n'), le_hex_spec(group)) {
            Some(n) => r == Some(
                if n <= u32::MAX {
                    n as u32
                } else {
                    u32::MAX
                },
            ),
            None => r is None,
        },
{
    let want = le_hex(group);
    let rows = split(igmp, '\n');
    let ghost all = views(rows@);
    let mut total: u32 = 0;
    let mut found = false;
    let mut i: usize = 0;
    while i < rows.len()
        invariant
            want@ == le_hex_spec(group),
            all == views(rows@),
            i <= rows@.len(),
            found == (table_users(all.take(i as int), want@) is Some),
            !found ==> total == 0,
            found ==> ({
                let n = table_users(all.take(i as int), want@)->0;
                n >= 0 && total == if n <= u32::MAX {
                    n
                } else {
                    u32::MAX as int
                }
            }),
        decreases rows.len() - i,
    {
        proof {
            assert(all.take(i + 1).drop_last() =~= all.take(i as int));
            assert(all.take(i + 1).last() == rows@[i as int]@);
        }
        let cols = words(&rows[i]);
        assert(views(cols@).len() == cols@.len());
        if cols.len() >= 2 {
            assert(views(cols@)[0] == cols@[0]@ && views(cols@)[1] == cols@[1]@);
            if same_ignoring_case(&cols[0], &want) {
                if let Some(u) = parse_u32(&cols[1]) {
                    total = total.saturating_add(u);
                    found = true;
                }
            }
        }
        i += 1;
    }
    assert(all.take(i as int) =~= all);
    if found {
        Some(total)
    } else {
        None
    }
}

/// Whether a source's module is to be reloaded: it is loaded, audio is arriving
/// now, no reload happened just before, and the only socket that is joined to
/// the group is the watchdog's own.
pub fn should_reload(module_loaded: bool, igmp_users: u32, audio_recent: bool, cooling: bool) -> (r:
    bool)
    ensures
        r == (module_loaded && audio_recent && !cooling && igmp_users < 2),
{
    module_loaded && audio_recent && !cooling && igmp_users < 2
}

// ---- the watchdog ------------------------------------------------------------

/// How often the watchdog looks, in milliseconds.
pub const TICK_MS: u64 = 5000;

/// A packet this recent counts as audio arriving now.
pub const RECENT_ACTIVITY_MS: u64 = 8000;

/// The least time between two reloads of one module.
pub const MIN_RELOAD_INTERVAL_MS: u64 = 20000;

/// The state of one watched source. Times are in milliseconds.
#[derive(Clone, Copy, Debug, PartialEq, Eq, Structural)]
pub struct Watcher {
    /// The group the watchdog's socket is joined to.
    pub group: Ipv4,
    /// The port that socket is bound to.
    pub port: u16,
    /// When it last saw a packet.
    pub last_rx: Option<u64>,
    /// When the module was last reloaded.
    pub last_reload: Option<u64>,
}

/// Whether less than `window` has passed since `t`.
pub open spec fn within(t: Option<u64>, now: u64, window: u64) -> bool {
    match t {
        Some(t) => now - t < window,
        None => false,
    }
}

fn is_within(t: Option<u64>, now: u64, window: u64) -> (r: bool)
    requires
        window > 0,
    ensures
        r == within(t, now, window),
{
    match t {
        Some(t) => now < t || now - t < window,
        None => false,
    }
}

/// When a packet was last seen, after a look that did or did not find some.
pub open spec fn seen(w: Watcher, drained: bool, now: u64) -> Option<u64> {
    if drained {
        Some(now)
    } else {
        w.last_rx
    }
}

/// Whether a look at a source ends in a reload of its module.
pub open spec fn reload_due(w: Watcher, drained: bool, now: u64, loaded: bool, users: u32) -> bool {
    loaded && within(seen(w, drained, now), now, RECENT_ACTIVITY_MS) && !within(
        w.last_reload,
        now,
        MIN_RELOAD_INTERVAL_MS,
    ) && users < 2
}

/// A watched source after a look at it.
pub open spec fn after_look(w: Watcher, drained: bool, now: u64, loaded: bool, users: u32) -> Watcher {
    Watcher {
        last_rx: seen(w, drained, now),
        last_reload: if reload_due(w, drained, now, loaded, users) {
            Some(now)
        } else {
            w.last_reload
        },
        ..w
    }
}

/// The watched sources, by node name.
pub struct Watchdog {
    pub watchers: NameMap<Watcher>,
}

impl Watchdog {
    pub fn new() -> (r: Self)
        ensures
            r.watchers@ == Map::<Seq<char>, Watcher>::empty(),
    {
        Watchdog { watchers: NameMap::new() }
    }

    /// Stops watching every source that is not in `desired`.
    pub fn retain(&mut self, desired: &NameSet)
        ensures
            final(self).watchers@ == old(self).watchers@.restrict(desired@),
    {
        self.watchers.retain(desired);
    }

    /// Whether the socket of a source has to be (re)joined: there is none yet, or
    /// its group or port is another one now.
    pub fn needs_join(&self, node_name: &str, group: Ipv4, port: u16) -> (r: bool)
        ensures
            r == !(self.watchers@.contains_key(node_name@) && self.watchers@[node_name@].group
                == group && self.watchers@[node_name@].port == port),
    {
        match self.watchers.get(node_name) {
            Some(w) => !(w.group == group && w.port == port),
            None => true,
        }
    }

    /// Notes how a join went. A join that worked starts a fresh observation but
    /// keeps the time of the last reload; one that failed ends the watch.
    pub fn joined(&mut self, node_name: &str, group: Ipv4, port: u16, ok: bool)
        ensures
            final(self).watchers@ == if ok {
                old(self).watchers@.insert(
                    node_name@,
                    Watcher {
                        group,
                        port,
                        last_rx: None,
                        last_reload: if old(self).watchers@.contains_key(node_name@) {
                            old(self).watchers@[node_name@].last_reload
                        } else {
                            None
                        },
                    },
                )
            } else {
                old(self).watchers@.remove(node_name@)
            },
    {
        if ok {
            let last_reload: Option<u64> = match self.watchers.get(node_name) {
                Some(w) => w.last_reload,
                None => None,
            };
            self.watchers.insert(
                String::from_str(node_name),
                Watcher { group, port, last_rx: None, last_reload },
            );
        } else {
            self.watchers.remove(node_name);
        }
    }

    /// Judges one watched source: `drained` says whether packets have arrived
    /// since the last look. Says whether to reload the module, and notes that it
    /// is. A source that is not watched is left alone.
    pub fn observe(
        &mut self,
        node_name: &str,
        drained: bool,
        now: u64,
        module_loaded: bool,
        igmp_users: u32,
    ) -> (reload: bool)
        ensures
            !old(self).watchers@.contains_key(node_name@) ==> !reload && final(self).watchers@
                == old(self).watchers@,
            old(self).watchers@.contains_key(node_name@) ==> reload == reload_due(
                old(self).watchers@[node_name@],
                drained,
                now,
                module_loaded,
                igmp_users,
            ) && final(self).watchers@ == old(self).watchers@.insert(
                node_name@,
                after_look(
                    old(self).watchers@[node_name@],
                    drained,
                    now,
                    module_loaded,
                    igmp_users,
                ),
            ),
    {
        let w: Watcher = match self.watchers.get(node_name) {
            Some(w) => *w,
            None => {
                return false;
            },
        };
        let last_rx: Option<u64> = if drained {
            Some(now)
        } else {
            w.last_rx
        };
        let audio_recent = is_within(last_rx, now, RECENT_ACTIVITY_MS);
        let cooling = is_within(w.last_reload, now, MIN_RELOAD_INTERVAL_MS);
        let reload = should_reload(module_loaded, igmp_users, audio_recent, cooling);
        let last_reload: Option<u64> = if reload {
            Some(now)
        } else {
            w.last_reload
        };
        self.watchers.insert(
            String::from_str(node_name),
            Watcher { group: w.group, port: w.port, last_rx, last_reload },
        );
        reload
    }
}

/// A source whose module was reloaded is not reloaded again before the reload
/// interval is over, whatever is seen in between.
pub proof fn law_reloads_are_spaced(
    w: Watcher,
    drained: bool,
    now: u64,
    loaded: bool,
    users: u32,
    drained_later: bool,
    later: u64,
    loaded_later: bool,
    users_later: u32,
)
    requires
        reload_due(w, drained, now, loaded, users),
        now <= later < now + MIN_RELOAD_INTERVAL_MS,
    ensures
        !reload_due(
            after_look(w, drained, now, loaded, users),
            drained_later,
            later,
            loaded_later,
            users_later,
        ),
{
}

/// While the module keeps its membership beside the watchdog's own socket, or
/// nothing is arriving, it is never reloaded.
pub proof fn law_healthy_or_idle_sources_are_left_alone(
    w: Watcher,
    drained: bool,
    now: u64,
    loaded: bool,
    users: u32,
)
    requires
        users >= 2 || !within(seen(w, drained, now), now, RECENT_ACTIVITY_MS),
    ensures
        !reload_due(w, drained, now, loaded, users),
{
}

/// One look at a watched source: what was found, and when.
pub ghost struct Look {
    pub drained: bool,
    pub now: u64,
    pub loaded: bool,
    pub users: u32,
}

/// A watched source after a run of looks.
pub open spec fn after_looks(w: Watcher, looks: Seq<Look>) -> Watcher
    decreases looks.len(),
{
    if looks.len() == 0 {
        w
    } else {
        let l = looks.last();
        after_look(after_looks(w, looks.drop_last()), l.drained, l.now, l.loaded, l.users)
    }
}

/// Whether the last look of a run ends in a reload.
pub open spec fn ends_in_reload(w: Watcher, looks: Seq<Look>) -> bool {
    looks.len() > 0 && reload_due(
        after_looks(w, looks.drop_last()),
        looks.last().drained,
        looks.last().now,
        looks.last().loaded,
        looks.last().users,
    )
}

/// A look that finds nothing leaves the time of the last packet as it was, one that
/// finds packets sets it, and neither touches the socket that is watched.
pub proof fn law_only_packets_move_the_last_packet(
    w: Watcher,
    drained: bool,
    now: u64,
    loaded: bool,
    users: u32,
)
    ensures
        !drained ==> after_look(w, drained, now, loaded, users).last_rx == w.last_rx,
        drained ==> after_look(w, drained, now, loaded, users).last_rx == Some(now),
        after_look(w, drained, now, loaded, users).group == w.group,
        after_look(w, drained, now, loaded, users).port == w.port,
{
}

/// The time of the last packet is that of the last look of the run that found some.
proof fn lemma_last_packet(w: Watcher, looks: Seq<Look>)
    ensures
        (forall|i: int| 0 <= i < looks.len() ==> !(#[trigger] looks[i]).drained) ==> after_looks(
            w,
            looks,
        ).last_rx == w.last_rx,
        forall|i: int|
            0 <= i < looks.len() && (#[trigger] looks[i]).drained && (forall|j: int|
                i < j < looks.len() ==> !(#[trigger] looks[j]).drained) ==> after_looks(
                w,
                looks,
            ).last_rx == Some(looks[i].now),
    decreases looks.len(),
{
    if looks.len() > 0 {
        let front = looks.drop_last();
        lemma_last_packet(w, front);
        assert forall|i: int|
            0 <= i < looks.len() && (#[trigger] looks[i]).drained && (forall|j: int|
                i < j < looks.len() ==> !(#[trigger] looks[j]).drained) implies after_looks(
            w,
            looks,
        ).last_rx == Some(looks[i].now) by {
            if i < front.len() {
                assert(front[i].drained);
                assert(!looks[looks.len() - 1].drained);
                assert forall|j: int| i < j < front.len() implies !(#[trigger] front[j]).drained by {
                    assert(!looks[j].drained);
                }
            }
        }
        if forall|i: int| 0 <= i < looks.len() ==> !(#[trigger] looks[i]).drained {
            assert(!looks[looks.len() - 1].drained);
            assert forall|i: int| 0 <= i < front.len() implies !(#[trigger] front[i]).drained by {
                assert(!looks[i].drained);
            }
        }
    }
}

/// The index of the last look that found packets.
proof fn lemma_some_last_packet(looks: Seq<Look>) -> (k: int)
    ensures
        -1 <= k < looks.len(),
        k >= 0 ==> looks[k].drained,
        forall|j: int| k < j < looks.len() ==> !(#[trigger] looks[j]).drained,
    decreases looks.len(),
{
    if looks.len() == 0 {
        -1
    } else if looks.last().drained {
        looks.len() - 1
    } else {
        let front = looks.drop_last();
        let k = lemma_some_last_packet(front);
        assert forall|j: int| k < j < looks.len() implies !(#[trigger] looks[j]).drained by {
            if j < front.len() {
                assert(!front[j].drained);
            }
        }
        k
    }
}

/// A reload needs a packet: over any run of looks since the socket was joined, a
/// look that ends in a reload has some look, itself or one before it, less than
/// eight seconds back, that found packets.
pub proof fn law_a_reload_needs_a_packet(w: Watcher, looks: Seq<Look>)
    requires
        w.last_rx is None,
        ends_in_reload(w, looks),
    ensures
        exists|i: int|
            0 <= i < looks.len() && (#[trigger] looks[i]).drained && looks.last().now - looks[i].now
                < 8000,
{
    let k = lemma_some_last_packet(looks);
    lemma_last_packet(w, looks);
    if k < 0 {
        assert forall|i: int| 0 <= i < looks.len() implies !(#[trigger] looks[i]).drained by {
            assert(k < i);
        }
    }
    let l = looks.last();
    assert(after_looks(w, looks).last_rx == seen(
        after_looks(w, looks.drop_last()),
        l.drained,
        l.now,
    ));
    assert(looks[k].drained);
}

/// The time of the last reload, over a run of looks: that of the last look that
/// ended in one.
proof fn lemma_last_reload(w: Watcher, looks: Seq<Look>)
    ensures
        (forall|i: int| 0 < i <= looks.len() ==> !#[trigger] ends_in_reload(w, looks.take(i)))
            ==> after_looks(w, looks).last_reload == w.last_reload,
        forall|i: int|
            0 < i <= looks.len() && #[trigger] ends_in_reload(w, looks.take(i)) && (forall|j: int|
                i < j <= looks.len() ==> !#[trigger] ends_in_reload(w, looks.take(j)))
                ==> after_looks(w, looks).last_reload == Some(looks[i - 1].now),
    decreases looks.len(),
{
    if looks.len() > 0 {
        let front = looks.drop_last();
        lemma_last_reload(w, front);
        assert forall|i: int| 0 <= i <= front.len() implies front.take(i) == #[trigger] looks.take(
            i,
        ) by {
            assert(front.take(i) =~= looks.take(i));
        }
        assert(looks.take(looks.len() as int) =~= looks);
        assert forall|i: int|
            0 < i <= looks.len() && #[trigger] ends_in_reload(w, looks.take(i)) && (forall|j: int|
                i < j <= looks.len() ==> !#[trigger] ends_in_reload(w, looks.take(j)))
            implies after_looks(w, looks).last_reload == Some(looks[i - 1].now) by {
            if i <= front.len() {
                assert(looks.take(i) == front.take(i));
                assert(!ends_in_reload(w, looks.take(looks.len() as int)));
                assert forall|j: int| i < j <= front.len() implies !#[trigger] ends_in_reload(
                    w,
                    front.take(j),
                ) by {
                    assert(front.take(j) == looks.take(j));
                    assert(!ends_in_reload(w, looks.take(j)));
                }
                assert(ends_in_reload(w, front.take(i)));
            }
        }
        if forall|i: int| 0 < i <= looks.len() ==> !#[trigger] ends_in_reload(w, looks.take(i)) {
            assert(!ends_in_reload(w, looks.take(looks.len() as int)));
            assert forall|i: int| 0 < i <= front.len() implies !#[trigger] ends_in_reload(
                w,
                front.take(i),
            ) by {
                assert(front.take(i) == looks.take(i));
                assert(!ends_in_reload(w, looks.take(i)));
            }
        }
    }
}

/// A source that has lost its membership is reloaded: over any run of looks, one at
/// a loaded source with fewer than two joined sockets ends in a reload where some
/// look found packets and none less than twenty seconds back ended in a reload,
/// provided that the packets came less than eight seconds back. Looks come in the
/// order of time.
pub proof fn law_a_lost_membership_is_mended(w: Watcher, looks: Seq<Look>, k: int)
    requires
        0 <= k < looks.len(),
        looks[k].drained,
        looks.last().now - looks[k].now < 8000,
        forall|i: int, j: int|
            0 <= i <= j < looks.len() ==> (#[trigger] looks[i]).now <= (#[trigger] looks[j]).now,
        looks.last().loaded,
        looks.last().users < 2,
        w.last_reload is None || looks.last().now - w.last_reload->0 >= 20000,
        forall|i: int|
            0 < i < looks.len() && #[trigger] ends_in_reload(w, looks.take(i))
                ==> looks.last().now - looks[i - 1].now >= 20000,
    ensures
        ends_in_reload(w, looks),
{
    let front = looks.drop_last();
    let l = looks.last();
    let last = lemma_some_last_packet(looks);
    lemma_last_packet(w, looks);
    assert(last >= k);
    assert(looks[last].now >= looks[k].now);
    assert(after_looks(w, looks).last_rx == Some(looks[last].now));
    assert(after_looks(w, looks).last_rx == seen(after_looks(w, front), l.drained, l.now));
    lemma_last_reload(w, front);
    assert forall|i: int| 0 <= i <= front.len() implies front.take(i) == #[trigger] looks.take(
        i,
    ) by {
        assert(front.take(i) =~= looks.take(i));
    }
    let r = lemma_some_last_reload(w, front);
    if r > 0 {
        assert(ends_in_reload(w, looks.take(r)));
        assert(after_looks(w, front).last_reload == Some(front[r - 1].now));
    }
}

/// The index behind the last look that ended in a reload, 0 where none did.
proof fn lemma_some_last_reload(w: Watcher, looks: Seq<Look>) -> (k: int)
    ensures
        0 <= k <= looks.len(),
        k > 0 ==> ends_in_reload(w, looks.take(k)),
        forall|j: int| k < j <= looks.len() ==> !#[trigger] ends_in_reload(w, looks.take(j)),
    decreases looks.len(),
{
    assert(looks.take(looks.len() as int) =~= looks);
    if looks.len() == 0 {
        0
    } else if ends_in_reload(w, looks) {
        looks.len() as int
    } else {
        let front = looks.drop_last();
        let k = lemma_some_last_reload(w, front);
        assert(front.take(k) =~= looks.take(k));
        assert forall|j: int| k < j <= looks.len() implies !#[trigger] ends_in_reload(
            w,
            looks.take(j),
        ) by {
            if j <= front.len() {
                assert(front.take(j) =~= looks.take(j));
            }
        }
        k
    }
}

/// The joined sockets of a group are those of its rows together: a row that is not
/// for it changes nothing, wherever it stands, and one that is for it raises the
/// count by what it says.
pub proof fn law_every_row_of_a_group_counts(
    before: Seq<Seq<char>>,
    row: Seq<char>,
    after: Seq<Seq<char>>,
    want: Seq<char>,
)
    ensures
        ({
            let w = words_spec(row);
            let with = table_users(before.push(row) + after, want);
            let without = table_users(before + after, want);
            let counts = w.len() >= 2 && lower_all(w[0]) == lower_all(want) && parsed_u32(
                w[1],
            ) is Some;
            &&& !counts ==> with == without
            &&& counts && without is None ==> with == Some(parsed_u32(w[1])->0 as int)
            &&& counts && without is Some ==> with == Some(parsed_u32(w[1])->0 + without->0)
        }),
        table_users(Seq::empty(), want) is None,
    decreases after.len(),
{
    if after.len() == 0 {
        assert(before.push(row) + after =~= before.push(row));
        assert(before.push(row).drop_last() =~= before);
        assert(before + after =~= before);
    } else {
        law_every_row_of_a_group_counts(before, row, after.drop_last(), want);
        let with = before.push(row) + after;
        let without = before + after;
        assert(with.drop_last() =~= before.push(row) + after.drop_last());
        assert(without.drop_last() =~= before + after.drop_last());
        assert(with.last() == after.last());
        assert(without.last() == after.last());
    }
}

// ---- loaded source modules ---------------------------------------------------

/// Some node of the sequence has this name.
pub open spec fn node_named(nodes: Seq<NodeInfo>, name: Seq<char>) -> bool {
    exists|i: int| 0 <= i < nodes.len() && (#[trigger] nodes[i]).node_name@ == name
}

/// The RTP source nodes of the graph that no configured source stands behind any
/// more, in order: what a reconcile unloads before it loads the configured ones.
pub fn orphaned_sources(reg: &RegistryState, desired: &NameSet) -> (r: Vec<String>)
    ensures
        sorted_names(views(r@)),
        forall|n: Seq<char>| #[trigger]
            views(r@).contains(n) <==> node_named(reg.nodes.values(), n) && rtp_source_node(n)
                && !desired@.contains(n),
{
    let mut out = NameSet::new();
    let n: usize = reg.nodes.len();
    let ghost nodes = reg.nodes.values();
    let mut i: usize = 0;
    while i < n
        invariant
            n == nodes.len(),
            nodes == reg.nodes.values(),
            i <= n,
            forall|k: Seq<char>| #[trigger]
                out@.contains(k) <==> node_named(nodes.take(i as int), k) && rtp_source_node(k)
                    && !desired@.contains(k),
        decreases n - i,
    {
        let node = reg.nodes.value_at(i);
        let ghost before = out@;
        if is_rtp_source_node(&node.node_name) && !desired.contains(&node.node_name) {
            out.insert(node.node_name.clone());
        }
        proof {
            assert forall|k: Seq<char>| #[trigger]
                node_named(nodes.take(i + 1), k) <==> node_named(nodes.take(i as int), k) || k
                    == node.node_name@ by {
                if node_named(nodes.take(i as int), k) {
                    let j = choose|j: int|
                        0 <= j < i && (#[trigger] nodes.take(i as int)[j]).node_name@ == k;
                    assert(nodes.take(i + 1)[j].node_name@ == k);
                }
                assert(nodes.take(i + 1)[i as int].node_name@ == node.node_name@);
                if node_named(nodes.take(i + 1), k) {
                    let j = choose|j: int|
                        0 <= j < i + 1 && (#[trigger] nodes.take(i + 1)[j]).node_name@ == k;
                    if j < i {
                        assert(nodes.take(i as int)[j].node_name@ == k);
                    }
                }
            }
        }
        i += 1;
    }
    assert(nodes.take(i as int) =~= nodes);
    out.to_vec()
}

/// The outcome of a request to load a module: the thread that would run it is
/// gone, it never answered, or its answer.
pub fn load_result(sent: bool, reply: Option<Result<(), String>>) -> (r: Result<(), String>)
    ensures
        !sent ==> r is Err && r->Err_0@ == "PipeWire thread is not running"@,
        sent && reply is None ==> r is Err && r->Err_0@ == "no reply from PipeWire thread"@,
        sent && reply is Some ==> r == reply->0,
{
    if !sent {
        return Err(String::from_str("PipeWire thread is not running"));
    }
    match reply {
        Some(answer) => answer,
        None => Err(String::from_str("no reply from PipeWire thread")),
    }
}

/// A multicast group is watched, and nothing else is: an address counts exactly where
/// it reads as one whose first octet is from 224 to 239.
pub proof fn law_only_multicast_groups_are_watched(source_addr: Seq<char>)
    ensures
        ipv4_of(source_addr) is None ==> group_of(source_addr) is None,
        ipv4_of(source_addr) matches Some(ip) ==> (group_of(source_addr) == Some(ip) <==> 224
            <= ip.a <= 239) && (group_of(source_addr) is Some ==> 224 <= ip.a <= 239),
{
}

proof fn lemma_octet(n: u8)
    ensures
        octet(decimal(n as int)) == Some(n),
        !decimal(n as int).contains('.'),
{
    lemma_digits_read_back(n as int);
    let s = decimal(n as int);
    assert(forall|i: int| 0 <= i < s.len() ==> s[i] != '.');
    reveal_with_fuel(decimal, 3);
    if n < 10 {
    } else if n < 100 {
        assert(s.len() == 2);
        assert(s[0] == digit(n as int / 10));
    } else {
        assert(s.len() == 3);
        assert(s[0] == digit(n as int / 100));
    }
}

/// An address that is written in dotted decimal reads back as itself.
pub proof fn law_written_addresses_read_back(ip: Ipv4)
    ensures
        ipv4_of(
            decimal(ip.a as int) + "."@ + decimal(ip.b as int) + "."@ + decimal(ip.c as int) + "."@
                + decimal(ip.d as int),
        ) == Some(ip),
{
    lemma_octet(ip.a);
    lemma_octet(ip.b);
    lemma_octet(ip.c);
    lemma_octet(ip.d);
    reveal_strlit(".");
    let dot = seq!['.'];
    assert("."@ =~= dot);
    let (a, b, c, d) = (
        decimal(ip.a as int),
        decimal(ip.b as int),
        decimal(ip.c as int),
        decimal(ip.d as int),
    );
    let parts = seq![a, b, c, d];
    assert forall|i: int| 0 <= i < parts.len() implies !(#[trigger] parts[i]).contains('.') by {
        assert(i == 0 || i == 1 || i == 2 || i == 3);
    }
    lemma_split_join(parts, '.');
    reveal_with_fuel(join_spec, 5);
    assert(parts.drop_last() =~= seq![a, b, c]);
    assert(seq![a, b, c].drop_last() =~= seq![a, b]);
    assert(seq![a, b].drop_last() =~= seq![a]);
    assert(join_spec(parts, dot) =~= a + dot + b + dot + c + dot + d);
}

/// Over any run of looks in the order of time, two that end in a reload lie at least
/// twenty seconds apart.
pub proof fn law_no_two_reloads_within_twenty_seconds(w: Watcher, looks: Seq<Look>, i: int)
    requires
        0 < i < looks.len(),
        ends_in_reload(w, looks.take(i)),
        ends_in_reload(w, looks),
        forall|i: int, j: int|
            0 <= i <= j < looks.len() ==> (#[trigger] looks[i]).now <= (#[trigger] looks[j]).now,
    ensures
        looks.last().now - looks[i - 1].now >= 20000,
{
    let front = looks.drop_last();
    lemma_last_reload(w, front);
    let r = lemma_some_last_reload(w, front);
    assert(front.take(i) =~= looks.take(i));
    assert(r >= i);
    assert(after_looks(w, front).last_reload == Some(front[r - 1].now));
    assert(looks[i - 1].now <= looks[r - 1].now);
    assert(looks[r - 1].now <= looks[looks.len() - 1].now);
}

/// The kernel's spelling of an address begins with its last octet and ends with its
/// first, each as two digits, the high one first, in upper case.
pub proof fn law_the_last_octet_is_spelled_first(ip: Ipv4)
    ensures
        ({
            let s = le_hex_spec(ip);
            &&& s.len() == 8
            &&& s[0] == upper(digit(ip.d as int / 16)) && s[1] == upper(digit(ip.d as int % 16))
            &&& s[2] == upper(digit(ip.c as int / 16)) && s[3] == upper(digit(ip.c as int % 16))
            &&& s[4] == upper(digit(ip.b as int / 16)) && s[5] == upper(digit(ip.b as int % 16))
            &&& s[6] == upper(digit(ip.a as int / 16)) && s[7] == upper(digit(ip.a as int % 16))
        }),
{
    lemma_two_digits(ip.a);
    lemma_two_digits(ip.b);
    lemma_two_digits(ip.c);
    lemma_two_digits(ip.d);
}

proof fn lemma_two_digits(n: u8)
    ensures
        hex(n as int, 2) == seq![digit(n as int / 16), digit(n as int % 16)],
{
    reveal_with_fuel(hex, 3);
    assert(n as int / 16 % 16 == n as int / 16);
    assert(hex(n as int, 2) =~= seq![digit(n as int / 16), digit(n as int % 16)]);
}

} // verus!
