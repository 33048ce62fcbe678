//! Announcements to single outputs: what carries one, and why nothing does.

use crate::maps::NameSet;
use crate::names::{AP2_DEV_PREFIX, PWSINK_DEV_PREFIX, SENDSPIN_DEV_PREFIX};
use crate::targets::{is_established, PwSinkLiveness};
use crate::text::{joined2, joined3, starts_with, strip_prefix};
use vstd::prelude::*;

verus! {

/// Starts the name of a private sink, which is neither an output nor an anchor.
pub const IDLE_SINK_PREFIX: &'static str = "idle-dev-";

/// Control ports of remote hosts' sessions are given out from here on, each with
/// the port behind it.
pub const PWSINK_BASE_PORT: u16 = 6200;

/// How long an on-demand session stays up after its clip, in milliseconds.
pub const ANNOUNCE_LINGER_MS: u64 = 30_000;

/// What is left to a receiver to play out what it has buffered, in milliseconds.
pub const ANNOUNCE_TAIL_MS: u64 = 2_000;

/// What carries an announcement to an output.
#[derive(Debug, Clone, PartialEq, Eq)]
pub enum AnnounceTransport {
    /// A sender that is streaming already.
    Live,
    /// An on-demand session that was just opened.
    Starting,
    /// An on-demand session that was opened before.
    Warm,
    /// Nothing, and why.
    Unavailable(String),
}

/// The model of an [`AnnounceTransport`].
pub ghost enum TransportView {
    Live,
    Starting,
    Warm,
    Unavailable(Seq<char>),
}

impl AnnounceTransport {
    pub open spec fn view(&self) -> TransportView {
        match *self {
            AnnounceTransport::Live => TransportView::Live,
            AnnounceTransport::Starting => TransportView::Starting,
            AnnounceTransport::Warm => TransportView::Warm,
            AnnounceTransport::Unavailable(why) => TransportView::Unavailable(why@),
        }
    }

    /// Whether the clip may have to wait for the session to come up.
    pub fn is_on_demand(&self) -> (r: bool)
        ensures
            r == (self@ is Starting || self@ is Warm),
    {
        match self {
            AnnounceTransport::Starting | AnnounceTransport::Warm => true,
            _ => false,
        }
    }
}

/// Why an output that has no sender and gets none on demand cannot be announced
/// to.
pub open spec fn no_transport(output: Seq<char>) -> Seq<char> {
    if SENDSPIN_DEV_PREFIX@.is_prefix_of(output) {
        "sendspin device has no sender running for it — it's offline, or not added on the Outputs page yet"@
    } else {
        "output has no per-device sender (only sendspin, AirPlay-2 and PipeWire targets can be announced to individually)"@
    }
}

/// Why an output that has no sender and gets none on demand cannot be announced
/// to.
pub fn no_transport_reason(output: &str) -> (r: String)
    ensures
        r@ == no_transport(output@),
{
    if starts_with(output, SENDSPIN_DEV_PREFIX) {
        "sendspin device has no sender running for it — it's offline, or not added on the Outputs page yet".to_string()
    } else {
        "output has no per-device sender (only sendspin, AirPlay-2 and PipeWire targets can be announced to individually)".to_string()
    }
}

/// Whether a session can be opened to the output on demand.
pub open spec fn dialed(output: Seq<char>) -> bool {
    AP2_DEV_PREFIX@.is_prefix_of(output) || PWSINK_DEV_PREFIX@.is_prefix_of(output)
}

/// Whether a session can be opened to the output on demand.
pub fn supports_on_demand_announce(output: &str) -> (r: bool)
    ensures
        r == dialed(output@),
{
    starts_with(output, AP2_DEV_PREFIX) || starts_with(output, PWSINK_DEV_PREFIX)
}

/// Whether a session to the output is up. Only the dialed kinds have one; for
/// every other output the question does not apply.
pub open spec fn dialed_established(
    output: Seq<char>,
    ap2_connected: Set<Seq<char>>,
    pwsink_established: bool,
) -> Option<bool> {
    if AP2_DEV_PREFIX@.is_prefix_of(output) {
        Some(ap2_connected.contains(output))
    } else if PWSINK_DEV_PREFIX@.is_prefix_of(output) {
        Some(pwsink_established)
    } else {
        None
    }
}

/// Whether a session to the output is up: an AirPlay receiver's where its sender
/// is connected, a remote host's where a receiver attached to it. Being reachable
/// is not enough.
pub fn dialed_session_established(
    output: &str,
    ap2_connected: &NameSet,
    pwsink: &PwSinkLiveness,
) -> (r: Option<bool>)
    ensures
        r == dialed_established(output@, ap2_connected@, is_established(pwsink.map@, output@)),
{
    if starts_with(output, AP2_DEV_PREFIX) {
        Some(ap2_connected.contains(output))
    } else if starts_with(output, PWSINK_DEV_PREFIX) {
        Some(pwsink.established(output))
    } else {
        None
    }
}

/// The sink an on-demand session captures from.
pub open spec fn sink_name(output: Seq<char>) -> Seq<char> {
    if AP2_DEV_PREFIX@.is_prefix_of(output) {
        IDLE_SINK_PREFIX@ + "ap2-"@ + output.skip(AP2_DEV_PREFIX@.len() as int)
    } else if PWSINK_DEV_PREFIX@.is_prefix_of(output) {
        IDLE_SINK_PREFIX@ + "pwsink-"@ + output.skip(PWSINK_DEV_PREFIX@.len() as int)
    } else {
        IDLE_SINK_PREFIX@ + output
    }
}

/// The private sink of an on-demand session; the kinds cannot collide.
pub fn announce_sink_name(output: &str) -> (r: String)
    ensures
        r@ == sink_name(output@),
{
    match strip_prefix(output, AP2_DEV_PREFIX) {
        Some(rest) => {
            return joined3(IDLE_SINK_PREFIX, "ap2-", &rest);
        },
        None => {},
    }
    match strip_prefix(output, PWSINK_DEV_PREFIX) {
        Some(rest) => joined3(IDLE_SINK_PREFIX, "pwsink-", &rest),
        None => joined2(IDLE_SINK_PREFIX, output),
    }
}

/// Two outputs of the dialed kinds have different sinks.
pub proof fn law_announce_sinks_are_distinct(a: Seq<char>, b: Seq<char>)
    requires
        dialed(a),
        dialed(b),
        sink_name(a) == sink_name(b),
    ensures
        a == b,
{
    reveal_strlit("ap2-dev-");
    reveal_strlit("pwsink-dev-");
    reveal_strlit("ap2-");
    reveal_strlit("pwsink-");
    reveal_strlit("idle-dev-");
    let n = IDLE_SINK_PREFIX@.len() as int;
    let ra = sink_name(a).skip(n);
    let rb = sink_name(b).skip(n);
    assert("ap2-"@[0] == 'a' && "pwsink-"@[0] == 'p');
    if AP2_DEV_PREFIX@.is_prefix_of(a) {
        assert(ra =~= "ap2-"@ + a.skip(AP2_DEV_PREFIX@.len() as int));
        assert(ra[0] == 'a');
        if !AP2_DEV_PREFIX@.is_prefix_of(b) {
            assert(rb =~= "pwsink-"@ + b.skip(PWSINK_DEV_PREFIX@.len() as int));
            assert(rb[0] == 'p');
        }
        assert(rb =~= "ap2-"@ + b.skip(AP2_DEV_PREFIX@.len() as int));
        assert(ra.skip(4) =~= a.skip(AP2_DEV_PREFIX@.len() as int));
        assert(rb.skip(4) =~= b.skip(AP2_DEV_PREFIX@.len() as int));
        assert(a =~= AP2_DEV_PREFIX@ + a.skip(AP2_DEV_PREFIX@.len() as int));
        assert(b =~= AP2_DEV_PREFIX@ + b.skip(AP2_DEV_PREFIX@.len() as int));
    } else {
        assert(ra =~= "pwsink-"@ + a.skip(PWSINK_DEV_PREFIX@.len() as int));
        assert(ra[0] == 'p');
        if AP2_DEV_PREFIX@.is_prefix_of(b) {
            assert(rb =~= "ap2-"@ + b.skip(AP2_DEV_PREFIX@.len() as int));
            assert(rb[0] == 'a');
        }
        assert(rb =~= "pwsink-"@ + b.skip(PWSINK_DEV_PREFIX@.len() as int));
        assert(ra.skip(7) =~= a.skip(PWSINK_DEV_PREFIX@.len() as int));
        assert(rb.skip(7) =~= b.skip(PWSINK_DEV_PREFIX@.len() as int));
        assert(a =~= PWSINK_DEV_PREFIX@ + a.skip(PWSINK_DEV_PREFIX@.len() as int));
        assert(b =~= PWSINK_DEV_PREFIX@ + b.skip(PWSINK_DEV_PREFIX@.len() as int));
    }
}

// ---- control ports ---------------------------------------------------------------

/// Whether a session with control port `t` holds the port `p`.
pub open spec fn holds(t: u16, p: int) -> bool {
    p == t || p == t + 1
}

/// Whether neither `p` nor the port behind it is held by a session.
pub open spec fn pair_free(taken: Seq<u16>, p: int) -> bool {
    forall|i: int|
        0 <= i < taken.len() ==> !holds(#[trigger] taken[i], p) && !holds(taken[i], p + 1)
}

/// The first `n` free pairs from `p` on, in steps of two, below the top of the
/// range.
pub open spec fn free_pairs(taken: Seq<u16>, p: int, n: nat) -> Seq<u16>
    decreases
            if p < 65534 {
                65534 - p
            } else {
                0
            },
{
    if n == 0 || p >= 65534 {
        Seq::empty()
    } else if pair_free(taken, p) {
        seq![p as u16] + free_pairs(taken, p + 2, (n - 1) as nat)
    } else {
        free_pairs(taken, p + 2, n)
    }
}

fn is_pair_free(taken: &Vec<u16>, p: u16) -> (r: bool)
    requires
        p < 65535,
    ensures
        r == pair_free(taken@, p as int),
{
    let mut i: usize = 0;
    while i < taken.len()
        invariant
            i <= taken@.len(),
            p < 65535,
            forall|j: int|
                0 <= j < i ==> !holds(#[trigger] taken@[j], p as int) && !holds(
                    taken@[j],
                    p as int + 1,
                ),
        decreases taken.len() - i,
    {
        let t: u16 = taken[i];
        let held = p == t || p + 1 == t || (t < 65535 && (p == t + 1 || p + 1 == t + 1));
        if held {
            assert(holds(taken@[i as int], p as int) || holds(taken@[i as int], p as int + 1));
            return false;
        }
        i += 1;
    }
    true
}

/// `n` free control ports, as far as there are that many. A session holds its
/// control port and the one behind it.
pub fn next_free_pwsink_ports(taken: &Vec<u16>, n: usize) -> (r: Vec<u16>)
    ensures
        r@ == free_pairs(taken@, PWSINK_BASE_PORT as int, n as nat),
{
    let mut out: Vec<u16> = Vec::new();
    let mut port: u16 = PWSINK_BASE_PORT;
    while out.len() < n && port < 65534
        invariant
            out@.len() <= n,
            6200 <= port <= 65535,
            port % 2 == 0,
            free_pairs(taken@, PWSINK_BASE_PORT as int, n as nat) == out@ + free_pairs(
                taken@,
                port as int,
                (n - out@.len()) as nat,
            ),
        decreases 65535 - port,
    {
        let ghost before = out@;
        let ghost rest = (n - out@.len()) as nat;
        if is_pair_free(taken, port) {
            out.push(port);
            assert(before + (seq![port] + free_pairs(taken@, port + 2, (rest - 1) as nat)) =~= out@
                + free_pairs(taken@, port + 2, (rest - 1) as nat));
        }
        port = port + 2;
    }
    proof {
        assert(free_pairs(taken@, port as int, (n - out@.len()) as nat) =~= Seq::<u16>::empty());
        assert(out@ + Seq::<u16>::empty() =~= out@);
    }
    out
}

/// The ports that are given out collide neither with a session that is running nor
/// with one another, and there are no more than asked for.
pub proof fn law_given_ports_are_free(taken: Seq<u16>, p: int, n: nat)
    requires
        p >= 0,
    ensures
        free_pairs(taken, p, n).len() <= n,
        forall|i: int|
            0 <= i < free_pairs(taken, p, n).len() ==> p <= #[trigger] free_pairs(taken, p, n)[i]
                < 65534 && pair_free(taken, free_pairs(taken, p, n)[i] as int),
        forall|i: int, j: int|
            0 <= i < j < free_pairs(taken, p, n).len() ==> #[trigger] free_pairs(taken, p, n)[i] + 2
                <= #[trigger] free_pairs(taken, p, n)[j],
    decreases
            if p < 65534 {
                65534 - p
            } else {
                0
            },
{
    if n > 0 && p < 65534 {
        let all = free_pairs(taken, p, n);
        if pair_free(taken, p) {
            let rest = free_pairs(taken, p + 2, (n - 1) as nat);
            law_given_ports_are_free(taken, p + 2, (n - 1) as nat);
            assert forall|i: int| 0 <= i < all.len() implies p <= #[trigger] all[i] < 65534
                && pair_free(taken, all[i] as int) by {
                if i > 0 {
                    assert(all[i] == rest[i - 1]);
                }
            }
            assert forall|i: int, j: int| 0 <= i < j < all.len() implies #[trigger] all[i] + 2
                <= #[trigger] all[j] by {
                assert(all[j] == rest[j - 1]);
                if i > 0 {
                    assert(all[i] == rest[i - 1]);
                }
            }
        } else {
            law_given_ports_are_free(taken, p + 2, n);
        }
    }
}

/// How long an AirPlay session lingers: the usual time, but never less than what
/// the receiver still has to play.
pub open spec fn ap2_linger(delay: Option<u16>, default_delay_ms: u16) -> int {
    let render = match delay {
        Some(ms) => ms as int,
        None => default_delay_ms as int,
    } + ANNOUNCE_TAIL_MS;
    if render > ANNOUNCE_LINGER_MS {
        render
    } else {
        ANNOUNCE_LINGER_MS as int
    }
}

/// How long an AirPlay session lingers.
pub fn ap2_linger_ms(delay: Option<u16>, default_delay_ms: u16) -> (r: u64)
    ensures
        r == ap2_linger(delay, default_delay_ms),
{
    let render: u64 = match delay {
        Some(ms) => ms as u64,
        None => default_delay_ms as u64,
    } + ANNOUNCE_TAIL_MS;
    if render > ANNOUNCE_LINGER_MS {
        render
    } else {
        ANNOUNCE_LINGER_MS
    }
}

/// A port that is given out is at least two away from every port that a session
/// runs on, on either side.
pub proof fn law_given_ports_keep_their_distance(taken: Seq<u16>, p: int, n: nat, i: int, k: int)
    requires
        p >= 0,
        0 <= i < free_pairs(taken, p, n).len(),
        0 <= k < taken.len(),
    ensures
        free_pairs(taken, p, n)[i] >= taken[k] + 2 || free_pairs(taken, p, n)[i] + 2 <= taken[k],
{
    law_given_ports_are_free(taken, p, n);
    let q = free_pairs(taken, p, n)[i] as int;
    assert(pair_free(taken, q));
    assert(!holds(taken[k], q) && !holds(taken[k], q + 1));
}

/// No free port is passed over: one on the grid that is clear of every running
/// session is given out, unless as many as asked for were found below it.
pub proof fn law_no_free_port_is_passed_over(taken: Seq<u16>, p: int, n: nat, q: int)
    requires
        0 <= p <= q < 65534,
        (q - p) % 2 == 0,
        forall|k: int|
            0 <= k < taken.len() ==> q >= (#[trigger] taken[k]) + 2 || q + 2 <= taken[k],
    ensures
        free_pairs(taken, p, n).contains(q as u16) || (free_pairs(taken, p, n).len() == n
            && forall|i: int|
            0 <= i < free_pairs(taken, p, n).len() ==> (#[trigger] free_pairs(taken, p, n)[i]) < q),
    decreases q - p,
{
    let all = free_pairs(taken, p, n);
    if n == 0 {
    } else if p == q {
        assert(pair_free(taken, p)) by {
            assert forall|k: int| 0 <= k < taken.len() implies !holds(#[trigger] taken[k], p)
                && !holds(taken[k], p + 1) by {
                assert(q >= taken[k] + 2 || q + 2 <= taken[k]);
            }
        }
        assert(all[0] == q as u16);
    } else {
        if pair_free(taken, p) {
            let rest = free_pairs(taken, p + 2, (n - 1) as nat);
            law_no_free_port_is_passed_over(taken, p + 2, (n - 1) as nat, q);
            assert(all == seq![p as u16] + rest);
            if rest.contains(q as u16) {
                let i = choose|i: int| 0 <= i < rest.len() && rest[i] == q as u16;
                assert(all[i + 1] == q as u16);
            } else {
                assert forall|i: int| 0 <= i < all.len() implies (#[trigger] all[i]) < q by {
                    if i > 0 {
                        assert(all[i] == rest[i - 1]);
                    }
                }
            }
        } else {
            law_no_free_port_is_passed_over(taken, p + 2, n, q);
        }
    }
}

/// An AirPlay session lingers for the usual time, and for longer where its receiver
/// still has to play for longer: its own delay where one is set, else the default,
/// and the tail of a clip.
pub proof fn law_a_session_outlasts_its_receiver(delay: Option<u16>, default_delay_ms: u16)
    ensures
        ({
            let linger = ap2_linger(delay, default_delay_ms);
            &&& linger >= 30_000
            &&& delay matches Some(ms) ==> linger >= ms + 2_000 && (linger == 30_000 || linger == ms
                + 2_000)
            &&& delay is None ==> linger >= default_delay_ms + 2_000 && (linger == 30_000 || linger
                == default_delay_ms + 2_000)
        }),
{
}

} // verus!
