//! The rules of a sendspin server: which codec a stream is sent in, how far
//! ahead of time, what a device's own reports change, and what is said of the
//! relayed stream.

use crate::codec::{base64, codec_floor_us, codec_header_base64, min_send_ahead_us, stream_header};
use crate::devices::SendspinDevice;
use crate::flac::{CHANNELS, SAMPLE_RATE};
use crate::maps::{lemma_push_contains, sorted_names, NameMap, NameSet};
use crate::names::{device_node_name, slug, SENDSPIN_DEV_PREFIX};
use crate::text::{before_first, before_first_spec, decimal, join, join_spec, lower_all, opt_view, push_decimal, same, same_ignoring_case, views};
use vstd::prelude::*;

verus! {

// ---- policies ----------------------------------------------------------------

/// When a connected device joins its group, which is what starts its stream.
#[derive(Clone, Copy, Debug, PartialEq, Eq, Structural)]
pub enum StreamPolicy {
    /// On connect, and for as long as it stays connected.
    Always,
    /// Only while an announcement is playing on it or queued for it.
    WhenAnnounced,
}

/// The reason a dial announces.
#[derive(Clone, Copy, Debug, PartialEq, Eq, Structural)]
pub enum ConnectionReason {
    Playback,
    Discovery,
}

impl StreamPolicy {
    /// The reason a dial under this policy announces.
    pub fn connection_reason(self) -> (r: ConnectionReason)
        ensures
            r == match self {
                StreamPolicy::Always => ConnectionReason::Playback,
                StreamPolicy::WhenAnnounced => ConnectionReason::Discovery,
            },
    {
        match self {
            StreamPolicy::Always => ConnectionReason::Playback,
            StreamPolicy::WhenAnnounced => ConnectionReason::Discovery,
        }
    }
}

// ---- codecs ------------------------------------------------------------------

/// The codec a user picked for an output.
#[derive(Clone, Copy, Debug, PartialEq, Eq, Structural)]
pub enum SendspinCodec {
    Auto,
    Opus,
    Flac,
    Pcm,
}

/// The codec of an explicit pick.
pub open spec fn explicit(mode: SendspinCodec) -> Option<Seq<char>> {
    match mode {
        SendspinCodec::Auto => None,
        SendspinCodec::Opus => Some("opus"@),
        SendspinCodec::Flac => Some("flac"@),
        SendspinCodec::Pcm => Some("pcm"@),
    }
}

impl SendspinCodec {
    /// The codec of an explicit pick, `None` for [`SendspinCodec::Auto`].
    pub fn explicit_codec(self) -> (r: Option<&'static str>)
        ensures
            (match r {
                Some(c) => Some(c@),
                None => None,
            }) == explicit(self),
    {
        match self {
            SendspinCodec::Auto => None,
            SendspinCodec::Opus => Some("opus"),
            SendspinCodec::Flac => Some("flac"),
            SendspinCodec::Pcm => Some("pcm"),
        }
    }
}

/// How little a pick permits: a member pinned to PCM decides over all others,
/// and any explicit pick over Auto.
pub open spec fn permissiveness(m: SendspinCodec) -> int {
    match m {
        SendspinCodec::Pcm => 0,
        SendspinCodec::Flac => 1,
        SendspinCodec::Opus => 2,
        SendspinCodec::Auto => 3,
    }
}

/// The least permissive of the picks; Auto where there is none.
pub open spec fn least_permissive(modes: Seq<SendspinCodec>) -> SendspinCodec
    decreases modes.len(),
{
    if modes.len() == 0 {
        SendspinCodec::Auto
    } else {
        let rest = least_permissive(modes.drop_last());
        if permissiveness(modes.last()) < permissiveness(rest) {
            modes.last()
        } else {
            rest
        }
    }
}

/// The pick of a group: the least permissive one among its members'.
pub fn group_codec_mode(modes: &Vec<SendspinCodec>) -> (r: SendspinCodec)
    ensures
        r == least_permissive(modes@),
{
    let mut best = SendspinCodec::Auto;
    let mut i: usize = 0;
    while i < modes.len()
        invariant
            i <= modes@.len(),
            best == least_permissive(modes@.take(i as int)),
        decreases modes.len() - i,
    {
        assert(modes@.take(i + 1).drop_last() =~= modes@.take(i as int));
        if rank(modes[i]) < rank(best) {
            best = modes[i];
        }
        i += 1;
    }
    assert(modes@.take(i as int) =~= modes@);
    best
}

/// The pick of a group is one of its members', and none is less permissive.
pub proof fn law_least_permissive_pick_decides(modes: Seq<SendspinCodec>)
    requires
        modes.len() > 0,
    ensures
        modes.contains(least_permissive(modes)),
        forall|i: int|
            0 <= i < modes.len() ==> permissiveness(least_permissive(modes)) <= permissiveness(
                #[trigger] modes[i],
            ),
    decreases modes.len(),
{
    let front = modes.drop_last();
    if front.len() == 0 {
        assert(modes[0] == modes.last());
        assert(least_permissive(front) == SendspinCodec::Auto);
        assert(modes.contains(modes[0]));
    } else {
        law_least_permissive_pick_decides(front);
        let rest = least_permissive(front);
        let k = choose|k: int| 0 <= k < front.len() && front[k] == rest;
        assert(modes[k] == rest);
        assert(modes[modes.len() - 1] == modes.last());
        assert forall|i: int| 0 <= i < modes.len() implies permissiveness(least_permissive(modes))
            <= permissiveness(#[trigger] modes[i]) by {
            if i < front.len() {
                assert(front[i] == modes[i]);
            }
        }
    }
}

fn rank(m: SendspinCodec) -> (r: u8)
    ensures
        r == permissiveness(m),
{
    match m {
        SendspinCodec::Pcm => 0,
        SendspinCodec::Flac => 1,
        SendspinCodec::Opus => 2,
        SendspinCodec::Auto => 3,
    }
}

/// Codec names are compared without regard to case.
pub open spec fn same_codec(a: Seq<char>, b: Seq<char>) -> bool {
    lower_all(a) == lower_all(b)
}

/// The codecs this daemon encodes.
pub open spec fn encodable(codec: Seq<char>) -> bool {
    same_codec("opus"@, codec) || same_codec("flac"@, codec) || same_codec("pcm"@, codec)
}

/// Whether this daemon can encode `codec`.
pub fn can_encode(codec: &str) -> (r: bool)
    ensures
        r == encodable(codec@),
{
    same_ignoring_case("opus", codec) || same_ignoring_case("flac", codec) || same_ignoring_case(
        "pcm",
        codec,
    )
}

/// The list names `codec`.
pub open spec fn lists(codecs: Seq<Seq<char>>, codec: Seq<char>) -> bool {
    exists|i: int| 0 <= i < codecs.len() && same_codec(#[trigger] codecs[i], codec)
}

/// Whether a device that advertised these codecs decodes `codec`: one that has
/// not said yet is only sure of PCM.
pub open spec fn decodes(codecs: Seq<Seq<char>>, codec: Seq<char>) -> bool {
    if codecs.len() == 0 {
        same_codec(codec, "pcm"@)
    } else {
        lists(codecs, codec)
    }
}

/// Whether a device that advertised these codecs is sure to decode `codec`.
pub fn device_supports(device_codecs: &Vec<String>, codec: &str) -> (r: bool)
    ensures
        r == decodes(views(device_codecs@), codec@),
{
    if device_codecs.len() == 0 {
        return same_ignoring_case(codec, "pcm");
    }
    let mut i: usize = 0;
    while i < device_codecs.len()
        invariant
            device_codecs@.len() > 0,
            i <= device_codecs@.len(),
            forall|j: int|
                0 <= j < i ==> !same_codec(#[trigger] views(device_codecs@)[j], codec@),
        decreases device_codecs.len() - i,
    {
        if same_ignoring_case(&device_codecs[i], codec) {
            assert(same_codec(views(device_codecs@)[i as int], codec@));
            return true;
        }
        i += 1;
    }
    false
}

/// Whether a stream can be sent in `codec`: it can be encoded, and every member
/// that has said what it decodes decodes it.
pub open spec fn usable(codec: Seq<char>, members: Seq<Seq<Seq<char>>>) -> bool {
    encodable(codec) && forall|i: int|
        0 <= i < members.len() && (#[trigger] members[i]).len() > 0 ==> decodes(members[i], codec)
}

/// What each member advertised.
pub open spec fn codec_lists(members: Seq<Vec<String>>) -> Seq<Seq<Seq<char>>> {
    members.map_values(|v: Vec<String>| views(v@))
}

fn is_usable(codec: &str, members: &Vec<Vec<String>>) -> (r: bool)
    ensures
        r == usable(codec@, codec_lists(members@)),
{
    if !can_encode(codec) {
        return false;
    }
    let mut i: usize = 0;
    while i < members.len()
        invariant
            i <= members@.len(),
            forall|j: int|
                0 <= j < i && (#[trigger] codec_lists(members@)[j]).len() > 0 ==> decodes(
                    codec_lists(members@)[j],
                    codec@,
                ),
        decreases members.len() - i,
    {
        if members[i].len() > 0 && !device_supports(&members[i], codec) {
            assert(codec_lists(members@)[i as int].len() > 0);
            return false;
        }
        i += 1;
    }
    true
}

/// The codec a stream is sent in: an explicit pick where it is usable, with Auto
/// Opus where that is usable, else PCM.
pub open spec fn resolved_codec(mode: SendspinCodec, members: Seq<Seq<Seq<char>>>) -> Seq<char> {
    match explicit(mode) {
        Some(c) => if usable(c, members) {
            c
        } else {
            "pcm"@
        },
        None => if usable("opus"@, members) {
            "opus"@
        } else {
            "pcm"@
        },
    }
}

/// The codec a stream is sent in, from the group's pick and what each member
/// advertised. A member that has not said yet does not count.
pub fn resolve_codec(mode: SendspinCodec, device_codecs: &Vec<Vec<String>>) -> (r: &'static str)
    ensures
        r@ == resolved_codec(mode, codec_lists(device_codecs@)),
{
    match mode.explicit_codec() {
        Some(codec) => if is_usable(codec, device_codecs) {
            codec
        } else {
            "pcm"
        },
        None => if is_usable("opus", device_codecs) {
            "opus"
        } else {
            "pcm"
        },
    }
}

/// A stream that is not PCM is in a codec that can be encoded and that every
/// member which has said what it decodes decodes.
pub proof fn law_codec_works_for_every_member(mode: SendspinCodec, members: Seq<Seq<Seq<char>>>)
    ensures
        resolved_codec(mode, members) == "pcm"@ || usable(resolved_codec(mode, members), members),
{
}

/// A member that has not said what it decodes does not change the codec.
pub proof fn law_unknown_members_do_not_change_the_codec(
    mode: SendspinCodec,
    members: Seq<Seq<Seq<char>>>,
    unknown: Seq<Seq<char>>,
)
    requires
        unknown.len() == 0,
    ensures
        resolved_codec(mode, members.push(unknown)) == resolved_codec(mode, members),
{
    assert forall|c: Seq<char>| usable(c, members.push(unknown)) == usable(c, members) by {
        let all = members.push(unknown);
        if usable(c, all) {
            assert forall|i: int|
                0 <= i < members.len() && (#[trigger] members[i]).len() > 0 implies decodes(
                members[i],
                c,
            ) by {
                assert(all[i] == members[i]);
            }
        }
        if usable(c, members) {
            assert forall|i: int|
                0 <= i < all.len() && (#[trigger] all[i]).len() > 0 implies decodes(
                all[i],
                c,
            ) by {
                assert(i < members.len());
                assert(all[i] == members[i]);
            }
        }
    }
}

/// Auto never picks FLAC: lossless is a deliberate choice.
pub proof fn law_auto_never_picks_flac(members: Seq<Seq<Seq<char>>>)
    ensures
        resolved_codec(SendspinCodec::Auto, members) != "flac"@,
{
    reveal_strlit("opus");
    reveal_strlit("pcm");
    reveal_strlit("flac");
    assert("opus"@[0] == 'o');
    assert("pcm"@[0] == 'p');
    assert("flac"@[0] == 'f');
}

// ---- send-ahead --------------------------------------------------------------

/// The send-ahead one member needs, in microseconds: what it reports, or else
/// the floor of the codec, and its static delay on top.
pub open spec fn member_lead_us(min_buffer_ms: Option<u32>, static_delay_ms: u16, floor_us: int) -> int {
    match min_buffer_ms {
        Some(m) => (m + static_delay_ms) * 1000,
        None => floor_us + static_delay_ms * 1000,
    }
}

/// The send-ahead of a stream: the configured lead, raised to the most that a
/// member needs.
pub open spec fn lead_us(configured_us: int, floor_us: int, members: Seq<(Option<u32>, u16)>) -> int
    decreases members.len(),
{
    if members.len() == 0 {
        configured_us
    } else {
        let rest = lead_us(configured_us, floor_us, members.drop_last());
        let need = member_lead_us(members.last().0, members.last().1, floor_us);
        if need > rest {
            need
        } else {
            rest
        }
    }
}

/// The send-ahead a stream must use. `members` holds what each member reported
/// and its static delay.
pub fn required_send_ahead_us(
    configured_us: i64,
    codec: &str,
    opus_floor_ms: u32,
    members: &Vec<(Option<u32>, u16)>,
) -> (r: i64)
    ensures
        r == lead_us(
            configured_us as int,
            codec_floor_us(codec@, opus_floor_ms),
            members@,
        ),
{
    let floor: i64 = min_send_ahead_us(codec, opus_floor_ms);
    let mut lead: i64 = configured_us;
    let mut i: usize = 0;
    while i < members.len()
        invariant
            i <= members@.len(),
            floor == codec_floor_us(codec@, opus_floor_ms),
            lead == lead_us(configured_us as int, floor as int, members@.take(i as int)),
        decreases members.len() - i,
    {
        let m = members[i];
        let need: i64 = match m.0 {
            Some(b) => (b as i64 + m.1 as i64) * 1000,
            None => floor + (m.1 as i64) * 1000,
        };
        proof {
            assert(members@.take(i + 1).drop_last() =~= members@.take(i as int));
            assert(members@.take(i + 1).last() == members@[i as int]);
        }
        if need > lead {
            lead = need;
        }
        i += 1;
    }
    assert(members@.take(i as int) =~= members@);
    lead
}

/// The send-ahead covers the configured lead and every member's need, and is one
/// of these: it is never longer than somebody asks for.
pub proof fn law_lead_covers_every_member(
    configured_us: int,
    floor_us: int,
    members: Seq<(Option<u32>, u16)>,
)
    ensures
        lead_us(configured_us, floor_us, members) >= configured_us,
        forall|i: int|
            0 <= i < members.len() ==> lead_us(configured_us, floor_us, members) >= member_lead_us(
                (#[trigger] members[i]).0,
                members[i].1,
                floor_us,
            ),
        lead_us(configured_us, floor_us, members) == configured_us || exists|i: int|
            0 <= i < members.len() && lead_us(configured_us, floor_us, members) == member_lead_us(
                (#[trigger] members[i]).0,
                members[i].1,
                floor_us,
            ),
    decreases members.len(),
{
    if members.len() > 0 {
        let front = members.drop_last();
        law_lead_covers_every_member(configured_us, floor_us, front);
        assert forall|i: int| 0 <= i < members.len() implies lead_us(
            configured_us,
            floor_us,
            members,
        ) >= member_lead_us((#[trigger] members[i]).0, members[i].1, floor_us) by {
            if i < front.len() {
                assert(front[i] == members[i]);
            }
        }
        if lead_us(configured_us, floor_us, members) != configured_us {
            let rest = lead_us(configured_us, floor_us, front);
            if lead_us(configured_us, floor_us, members) == rest {
                let i = choose|i: int|
                    0 <= i < front.len() && rest == member_lead_us(
                        (#[trigger] front[i]).0,
                        front[i].1,
                        floor_us,
                    );
                assert(members[i] == front[i]);
            } else {
                assert(members[members.len() - 1] == members.last());
            }
        }
    }
}

// ---- device reports ----------------------------------------------------------

/// `r` is the output node of the device with this instance name: the registered
/// one, or else the one its label leads to.
pub open spec fn is_node_of(
    r: Seq<char>,
    devices: Map<Seq<char>, SendspinDevice>,
    fullname: Seq<char>,
) -> bool {
    ||| devices.contains_key(r) && devices[r].fullname@ == fullname && forall|k: Seq<char>|
        #[trigger]
        devices.contains_key(k) && devices[k].fullname@ == fullname ==> k == r
            || crate::text::lex_lt(r, k)
    ||| (forall|k: Seq<char>| #[trigger]
        devices.contains_key(k) ==> devices[k].fullname@ != fullname) && r == SENDSPIN_DEV_PREFIX@
        + slug(before_first_spec(fullname, "._sendspin._tcp"@))
}

/// The output node of the device with this mDNS instance name.
pub fn resolve_node_name(devices: &NameMap<SendspinDevice>, fullname: &str) -> (r: String)
    ensures
        is_node_of(r@, devices@, fullname@),
{
    let n: usize = devices.len();
    let ghost names = devices.names();
    let mut i: usize = 0;
    while i < n
        invariant
            n == names.len(),
            names == devices.names(),
            n == devices.values().len(),
            sorted_names(names),
            forall|j: int|
                0 <= j < n ==> devices@.contains_key(#[trigger] names[j]) && devices@[names[j]]
                    == devices.values()[j],
            i <= n,
            forall|j: int| 0 <= j < i ==> devices@[#[trigger] names[j]].fullname@ != fullname@,
        decreases n - i,
    {
        if same(&devices.value_at(i).fullname, fullname) {
            let r: String = devices.key_at(i).clone();
            proof {
                assert(names[i as int] == r@);
                assert forall|k: Seq<char>| #[trigger]
                    devices@.contains_key(k) && devices@[k].fullname@ == fullname@ implies k == r@
                    || crate::text::lex_lt(r@, k) by {
                    assert(names.contains(k));
                    let m = choose|m: int| 0 <= m < names.len() && names[m] == k;
                    if m < i {
                        assert(devices@[names[m]].fullname@ != fullname@);
                    } else if m > i {
                        assert(crate::text::lex_lt(names[i as int], names[m]));
                    }
                }
            }
            return r;
        }
        i += 1;
    }
    proof {
        assert forall|k: Seq<char>| #[trigger]
            devices@.contains_key(k) implies devices@[k].fullname@ != fullname@ by {
            assert(names.contains(k));
            let m = choose|m: int| 0 <= m < names.len() && names[m] == k;
            assert(devices@[names[m]].fullname@ != fullname@);
        }
    }
    let label = before_first(fullname, "._sendspin._tcp");
    device_node_name(&label)
}

/// Notes the buffering a device asks for, and says whether that is news: a
/// repetition changes nothing, and a device that is not registered will report
/// again.
pub fn record_timing_request(
    devices: &mut NameMap<SendspinDevice>,
    node_name: &str,
    min_buffer_ms: Option<u32>,
    required_lead_ms: Option<u32>,
) -> (changed: bool)
    ensures
        changed == (old(devices)@.contains_key(node_name@) && (old(
            devices)@[node_name@].min_buffer_ms != min_buffer_ms || old(
            devices)@[node_name@].required_lead_time_ms != required_lead_ms)),
        final(devices)@ == if old(devices)@.contains_key(node_name@) {
            old(devices)@.insert(
                node_name@,
                SendspinDevice {
                    min_buffer_ms,
                    required_lead_time_ms: required_lead_ms,
                    ..old(devices)@[node_name@]
                },
            )
        } else {
            old(devices)@
        },
{
    let ghost before = devices@;
    match devices.remove(node_name) {
        Some(mut d) => {
            let changed = !(same_option(d.min_buffer_ms, min_buffer_ms) && same_option(
                d.required_lead_time_ms,
                required_lead_ms,
            ));
            d.min_buffer_ms = min_buffer_ms;
            d.required_lead_time_ms = required_lead_ms;
            devices.insert(String::from_str(node_name), d);
            assert(devices@ =~= before.insert(
                node_name@,
                SendspinDevice {
                    min_buffer_ms,
                    required_lead_time_ms: required_lead_ms,
                    ..before[node_name@]
                },
            ));
            changed
        },
        None => {
            assert(devices@ =~= before);
            false
        },
    }
}

fn same_option(a: Option<u32>, b: Option<u32>) -> (r: bool)
    ensures
        r == (a == b),
{
    match (a, b) {
        (Some(x), Some(y)) => x == y,
        (None, None) => true,
        _ => false,
    }
}

/// An audio format.
pub struct AudioFormatSpec {
    pub codec: String,
    pub channels: u8,
    pub sample_rate: u32,
    pub bit_depth: u8,
}

/// The format is the one a stream in `codec` is sent in: the capture format.
pub open spec fn is_wire_format(f: AudioFormatSpec, codec: Seq<char>) -> bool {
    f.codec@ == codec && f.channels == CHANNELS && f.sample_rate == SAMPLE_RATE && f.bit_depth == 16
}

/// The format a stream in `codec` is sent in.
pub fn wire_format_for(codec: &str) -> (r: AudioFormatSpec)
    ensures
        is_wire_format(r, codec@),
{
    AudioFormatSpec {
        codec: String::from_str(codec),
        channels: CHANNELS as u8,
        sample_rate: SAMPLE_RATE,
        bit_depth: 16,
    }
}

/// The formats of a device include the one a stream in `codec` is sent in.
pub open spec fn accepts(formats: Seq<AudioFormatSpec>, codec: Seq<char>) -> bool {
    exists|i: int| 0 <= i < formats.len() && is_wire_format(#[trigger] formats[i], codec)
}

/// Whether a device that advertised these formats accepts a stream in `codec`.
pub fn supports_wire_format(formats: &Vec<AudioFormatSpec>, codec: &str) -> (r: bool)
    ensures
        r == accepts(formats@, codec@),
{
    let mut i: usize = 0;
    while i < formats.len()
        invariant
            i <= formats@.len(),
            forall|j: int| 0 <= j < i ==> !is_wire_format(#[trigger] formats@[j], codec@),
        decreases formats.len() - i,
    {
        let f = &formats[i];
        if same(&f.codec, codec) && f.channels as u16 == CHANNELS && f.sample_rate == SAMPLE_RATE
            && f.bit_depth == 16 {
            assert(is_wire_format(formats@[i as int], codec@));
            return true;
        }
        i += 1;
    }
    false
}

/// The codecs that are offered, best first.
pub open spec fn offered_codecs() -> Seq<Seq<char>> {
    seq!["opus"@, "flac"@, "pcm"@]
}

/// The offered codecs that a device with these formats accepts, best first.
pub open spec fn usable_codecs(formats: Seq<AudioFormatSpec>) -> Seq<Seq<char>> {
    offered_codecs().filter(|c: Seq<char>| accepts(formats, c))
}

fn codecs_at_wire_format(formats: &Vec<AudioFormatSpec>) -> (r: Vec<String>)
    ensures
        views(r@) == usable_codecs(formats@),
{
    let mut out: Vec<String> = Vec::new();
    let opus = supports_wire_format(formats, "opus");
    let flac = supports_wire_format(formats, "flac");
    let pcm = supports_wire_format(formats, "pcm");
    if opus {
        out.push(String::from_str("opus"));
    }
    if flac {
        out.push(String::from_str("flac"));
    }
    if pcm {
        out.push(String::from_str("pcm"));
    }
    proof {
        let f = |c: Seq<char>| accepts(formats@, c);
        let o = offered_codecs();
        reveal_with_fuel(Seq::filter, 4);
        assert(o.drop_last() =~= seq!["opus"@, "flac"@]);
        assert(o.drop_last().drop_last() =~= seq!["opus"@]);
        assert(o.drop_last().drop_last().drop_last() =~= Seq::<Seq<char>>::empty());
        assert(views(out@) =~= usable_codecs(formats@));
    }
    out
}

/// The formats in a greeting.
pub open spec fn format_views(formats: Option<&Vec<AudioFormatSpec>>) -> Option<
    Seq<AudioFormatSpec>,
> {
    match formats {
        Some(f) => Some(f@),
        None => None,
    }
}

/// Whether the formats in a device's greeting are news.
pub open spec fn formats_are_news(
    devices: Map<Seq<char>, SendspinDevice>,
    node: Seq<char>,
    formats: Option<Seq<AudioFormatSpec>>,
) -> bool {
    &&& formats is Some
    &&& devices.contains_key(node)
    &&& views(devices[node].supported_codecs@) != usable_codecs(formats->0)
}

/// `after` is `before` with the codecs noted that a device accepts, where they are
/// news.
pub open spec fn formats_noted(
    before: Map<Seq<char>, SendspinDevice>,
    after: Map<Seq<char>, SendspinDevice>,
    node: Seq<char>,
    formats: Option<Seq<AudioFormatSpec>>,
) -> bool {
    if formats_are_news(before, node, formats) {
        let new = after[node];
        &&& after == before.insert(node, new)
        &&& views(new.supported_codecs@) == usable_codecs(formats->0)
        &&& new == (SendspinDevice { supported_codecs: new.supported_codecs, ..before[node] })
    } else {
        after == before
    }
}

/// Notes what a device decodes, from the formats in its greeting (`None` where
/// it has none), and says whether that is news. Only formats at the wire rate,
/// depth and channel count make a codec usable.
pub fn report_format_support(
    devices: &mut NameMap<SendspinDevice>,
    node_name: &str,
    formats: Option<&Vec<AudioFormatSpec>>,
) -> (changed: bool)
    ensures
        changed == formats_are_news(old(devices)@, node_name@, format_views(formats)),
        formats_noted(old(devices)@, final(devices)@, node_name@, format_views(formats)),
{
    let formats = match formats {
        Some(f) => f,
        None => {
            return false;
        },
    };
    let usable = codecs_at_wire_format(formats);
    let ghost before = devices@;
    match devices.get(node_name) {
        Some(d) => {
            if same_names(&d.supported_codecs, &usable) {
                return false;
            }
        },
        None => {
            return false;
        },
    }
    match devices.remove(node_name) {
        Some(mut d) => {
            d.supported_codecs = usable;
            devices.insert(String::from_str(node_name), d);
            proof {
                assert(devices@ =~= before.insert(node_name@, devices@[node_name@]));
            }
            true
        },
        None => false,
    }
}

/// Whether two lists hold the same strings in the same order.
pub fn same_names(a: &Vec<String>, b: &Vec<String>) -> (r: bool)
    ensures
        r == (views(a@) == views(b@)),
{
    if a.len() != b.len() {
        assert(views(a@).len() != views(b@).len());
        return false;
    }
    let mut i: usize = 0;
    while i < a.len()
        invariant
            a@.len() == b@.len(),
            i <= a@.len(),
            forall|j: int| 0 <= j < i ==> (#[trigger] a@[j])@ == b@[j]@,
        decreases a.len() - i,
    {
        if !same(&a[i], &b[i]) {
            assert(views(a@)[i as int] != views(b@)[i as int]);
            return false;
        }
        i += 1;
    }
    assert(views(a@) =~= views(b@));
    true
}

// ---- the stream --------------------------------------------------------------

/// What a stream is announced with.
pub struct StreamConfig {
    pub codec: String,
    pub sample_rate: u32,
    pub channels: u8,
    pub bit_depth: u8,
    pub codec_header: Option<String>,
}

/// What a stream in `codec` is announced with: the capture format, and the codec
/// header where the codec has one.
pub fn stream_config(codec: &str) -> (r: StreamConfig)
    ensures
        r.codec@ == codec@,
        r.sample_rate == SAMPLE_RATE,
        r.channels == CHANNELS,
        r.bit_depth == 16,
        opt_view(r.codec_header) == if codec@ == "flac"@ {
            Some(base64(stream_header()))
        } else {
            None
        },
{
    StreamConfig {
        codec: String::from_str(codec),
        sample_rate: SAMPLE_RATE,
        channels: CHANNELS as u8,
        bit_depth: 16,
        codec_header: codec_header_base64(codec),
    }
}

// ---- relay statistics --------------------------------------------------------

/// What the relay has seen of the timeline since the last report: the gaps
/// between the timestamps of blocks in a row, their lead over the clock, and the
/// chunks each device lost.
pub struct RelayStats {
    pub blocks: u64,
    pub dropped_by_device: NameMap<u64>,
    /// Captured chunks that gave more than one block.
    pub bursts: u64,
    pub gap_min_us: i64,
    pub gap_max_us: i64,
    pub lead_min_us: i64,
    pub lead_max_us: i64,
    pub packet_max: usize,
    pub prev_ts: Option<i64>,
}

pub open spec fn min_int(a: int, b: int) -> int {
    if a <= b {
        a
    } else {
        b
    }
}

pub open spec fn max_int(a: int, b: int) -> int {
    if a >= b {
        a
    } else {
        b
    }
}

fn min_i64(a: i64, b: i64) -> (r: i64)
    ensures
        r == min_int(a as int, b as int),
{
    if a <= b {
        a
    } else {
        b
    }
}

fn max_i64(a: i64, b: i64) -> (r: i64)
    ensures
        r == max_int(a as int, b as int),
{
    if a >= b {
        a
    } else {
        b
    }
}

/// `after` is `before` with one more block noted: its gap to the one before, its lead
/// over the clock, and the size of its largest packet.
pub open spec fn block_noted(
    before: RelayStats,
    after: RelayStats,
    ts: i64,
    now_us: i64,
    largest_packet: usize,
) -> bool {
    &&& after.blocks == before.blocks + 1
    &&& after.prev_ts == Some(ts)
    &&& after.packet_max == max_int(before.packet_max as int, largest_packet as int)
    &&& after.lead_min_us == if before.blocks == 0 {
        ts - now_us
    } else {
        min_int(before.lead_min_us as int, ts - now_us)
    }
    &&& after.lead_max_us == if before.blocks == 0 {
        ts - now_us
    } else {
        max_int(before.lead_max_us as int, ts - now_us)
    }
    &&& after.gap_min_us == match before.prev_ts {
        Some(p) => if before.blocks == 1 {
            ts - p
        } else {
            min_int(before.gap_min_us as int, ts - p)
        },
        None => before.gap_min_us as int,
    }
    &&& after.gap_max_us == match before.prev_ts {
        Some(p) => if before.blocks == 1 {
            ts - p
        } else {
            max_int(before.gap_max_us as int, ts - p)
        },
        None => before.gap_max_us as int,
    }
    &&& after.dropped_by_device == before.dropped_by_device
    &&& after.bursts == before.bursts
}

impl RelayStats {
    /// Nothing was seen yet.
    pub open spec fn is_fresh(self) -> bool {
        &&& self.blocks == 0
        &&& self.dropped_by_device@ == Map::<Seq<char>, u64>::empty()
        &&& self.bursts == 0
        &&& self.gap_min_us == 0
        &&& self.gap_max_us == 0
        &&& self.lead_min_us == 0
        &&& self.lead_max_us == 0
        &&& self.packet_max == 0
        &&& self.prev_ts is None
    }

    /// Nothing seen yet.
    pub fn new() -> (r: Self)
        ensures
            r.is_fresh(),
    {
        RelayStats {
            blocks: 0,
            dropped_by_device: NameMap::new(),
            bursts: 0,
            gap_min_us: 0,
            gap_max_us: 0,
            lead_min_us: 0,
            lead_max_us: 0,
            packet_max: 0,
            prev_ts: None,
        }
    }

    /// Notes one block with this timestamp, sent at this time, whose largest
    /// packet has this many bytes.
    pub fn note_block(&mut self, ts: i64, now_us: i64, largest_packet: usize)
        requires
            old(self).blocks < u64::MAX,
            i64::MIN <= ts - now_us <= i64::MAX,
            old(self).prev_ts matches Some(p) ==> i64::MIN <= ts - p <= i64::MAX,
        ensures
            block_noted(*old(self), *final(self), ts, now_us, largest_packet),
    {
        if let Some(prev) = self.prev_ts {
            let gap: i64 = ts - prev;
            if self.blocks == 1 {
                self.gap_min_us = gap;
                self.gap_max_us = gap;
            } else {
                self.gap_min_us = min_i64(self.gap_min_us, gap);
                self.gap_max_us = max_i64(self.gap_max_us, gap);
            }
        }
        let lead: i64 = ts - now_us;
        if self.blocks == 0 {
            self.lead_min_us = lead;
            self.lead_max_us = lead;
        } else {
            self.lead_min_us = min_i64(self.lead_min_us, lead);
            self.lead_max_us = max_i64(self.lead_max_us, lead);
        }
        self.prev_ts = Some(ts);
        self.blocks = self.blocks + 1;
        if largest_packet > self.packet_max {
            self.packet_max = largest_packet;
        }
    }

    /// Notes that a device lost one chunk.
    pub fn note_dropped(&mut self, node_name: &str)
        requires
            old(self).dropped_by_device@.contains_key(node_name@) ==> old(
                self).dropped_by_device@[node_name@] < u64::MAX,
        ensures
            final(self).dropped_by_device@ == old(self).dropped_by_device@.insert(
                node_name@,
                if old(self).dropped_by_device@.contains_key(node_name@) {
                    (old(self).dropped_by_device@[node_name@] + 1) as u64
                } else {
                    1
                },
            ),
            *final(self) == (RelayStats {
                dropped_by_device: final(self).dropped_by_device,
                ..*old(self)
            }),
    {
        let n: u64 = match self.dropped_by_device.get(node_name) {
            Some(n) => *n + 1,
            None => 1,
        };
        self.dropped_by_device.insert(String::from_str(node_name), n);
    }

    /// Notes how many blocks one captured chunk gave.
    pub fn note_chunk(&mut self, emitted: usize)
        requires
            old(self).bursts < u64::MAX,
        ensures
            final(self).bursts == old(self).bursts + if emitted > 1 {
                1int
            } else {
                0
            },
            *final(self) == (RelayStats { bursts: final(self).bursts, ..*old(self) }),
    {
        if emitted > 1 {
            self.bursts = self.bursts + 1;
        }
    }

    /// Whether any device lost audio.
    pub fn any_dropped(&self) -> (r: bool)
        ensures
            r == (self.dropped_by_device@.dom() !~= Set::<Seq<char>>::empty()),
    {
        !self.dropped_by_device.is_empty()
    }

    /// Whether a report is due: the interval is over, and there is something to
    /// say, which a passed-through stream has only where audio was lost.
    pub fn report_due(&self, block_frames: Option<usize>, elapsed_ms: u64) -> (r: bool)
        ensures
            r == ((block_frames is Some || self.dropped_by_device@.dom() !~= Set::<
                Seq<char>,
            >::empty()) && elapsed_ms >= STATS_INTERVAL_MS),
            elapsed_ms < 10_000 ==> !r,
            elapsed_ms >= 10_000 && block_frames is Some ==> r,
    {
        (block_frames.is_some() || self.any_dropped()) && elapsed_ms >= STATS_INTERVAL_MS
    }

    /// What each device lost, in order: its name and how many chunks.
    pub fn dropped_report(&self) -> (r: String)
        ensures
            exists|parts: Seq<Seq<char>>| #[trigger]
                sorted_names(parts) && r@ == join_spec(parts, ", "@) && forall|p: Seq<char>|
                    parts.contains(p) <==> is_drop_entry(self.dropped_by_device@, p),
    {
        let n: usize = self.dropped_by_device.len();
        let ghost m = self.dropped_by_device@;
        let ghost names = self.dropped_by_device.names();
        let mut parts = NameSet::new();
        let mut i: usize = 0;
        while i < n
            invariant
                n == names.len(),
                names == self.dropped_by_device.names(),
                n == self.dropped_by_device.values().len(),
                m == self.dropped_by_device@,
                forall|j: int|
                    0 <= j < n ==> m.contains_key(#[trigger] names[j]) && m[names[j]]
                        == self.dropped_by_device.values()[j],
                i <= n,
                forall|p: Seq<char>| #[trigger]
                    parts@.contains(p) <==> exists|j: int|
                        0 <= j < i && p == drop_entry(#[trigger] names[j], m[names[j]]),
            decreases n - i,
        {
            let mut line: String = self.dropped_by_device.key_at(i).clone();
            let count: u64 = *self.dropped_by_device.value_at(i);
            line.append(" x");
            push_decimal(&mut line, count);
            let ghost entry = line@;
            assert(entry =~= drop_entry(names[i as int], m[names[i as int]]));
            let ghost before = parts@;
            parts.insert(line);
            proof {
                assert forall|p: Seq<char>| #[trigger]
                    parts@.contains(p) <==> exists|j: int|
                        0 <= j < i + 1 && p == drop_entry(#[trigger] names[j], m[names[j]]) by {
                    if before.contains(p) {
                        let j = choose|j: int|
                            0 <= j < i && p == drop_entry(#[trigger] names[j], m[names[j]]);
                        assert(p == drop_entry(names[j], m[names[j]]));
                    }
                }
            }
            i += 1;
        }
        let lines = parts.to_vec();
        proof {
            assert forall|p: Seq<char>|
                views(lines@).contains(p) <==> is_drop_entry(m, p) by {
                if views(lines@).contains(p) {
                    assert(parts@.contains(p));
                    let j = choose|j: int|
                        0 <= j < i && p == drop_entry(#[trigger] names[j], m[names[j]]);
                    assert(m.contains_key(names[j]));
                }
                if is_drop_entry(m, p) {
                    let k = choose|k: Seq<char>| #[trigger]
                        m.contains_key(k) && p == drop_entry(k, m[k]);
                    assert(names.contains(k));
                    let j = choose|j: int| 0 <= j < names.len() && names[j] == k;
                    assert(p == drop_entry(names[j], m[names[j]]));
                    assert(parts@.contains(p));
                }
            }
        }
        join(&lines, ", ")
    }
}

/// How often the relay reports, in milliseconds.
pub const STATS_INTERVAL_MS: u64 = 10000;

/// What is said of one device that lost chunks.
pub open spec fn drop_entry(node: Seq<char>, count: u64) -> Seq<char> {
    node + " x"@ + decimal(count as int)
}

/// `p` is what is said of one of the devices.
pub open spec fn is_drop_entry(m: Map<Seq<char>, u64>, p: Seq<char>) -> bool {
    exists|k: Seq<char>| #[trigger] m.contains_key(k) && p == drop_entry(k, m[k])
}

// ---- laws of what devices say ------------------------------------------------------

proof fn lemma_picked(s: Seq<Seq<char>>, f: spec_fn(Seq<char>) -> bool, x: Seq<char>)
    ensures
        s.filter(f).contains(x) <==> s.contains(x) && f(x),
    decreases s.len(),
{
    reveal(Seq::filter);
    if s.len() > 0 {
        lemma_picked(s.drop_last(), f, x);
        lemma_push_contains(s.drop_last(), s.last());
        lemma_push_contains(s.drop_last().filter(f), s.last());
        assert(s =~= s.drop_last().push(s.last()));
    }
}

/// A device accepts a codec exactly where it lists a format in that codec with two
/// channels at 48 kHz and 16 bits; what it lists at another rate, depth or channel
/// count does not count, and no other codec is ever offered.
pub proof fn law_only_the_wire_format_counts(formats: Seq<AudioFormatSpec>, codec: Seq<char>)
    ensures
        usable_codecs(formats).contains(codec) <==> (codec == "opus"@ || codec == "flac"@ || codec
            == "pcm"@) && exists|i: int|
            0 <= i < formats.len() && (#[trigger] formats[i]).codec@ == codec && formats[i].channels
                == 2 && formats[i].sample_rate == 48_000 && formats[i].bit_depth == 16,
{
    let o = offered_codecs();
    let f = |c: Seq<char>| accepts(formats, c);
    lemma_picked(o, f, codec);
    assert(o[0] == "opus"@ && o[1] == "flac"@ && o[2] == "pcm"@);
    assert(o.contains(codec) <==> (codec == "opus"@ || codec == "flac"@ || codec == "pcm"@));
    if exists|i: int|
        0 <= i < formats.len() && (#[trigger] formats[i]).codec@ == codec && formats[i].channels == 2
            && formats[i].sample_rate == 48_000 && formats[i].bit_depth == 16 {
        let i = choose|i: int|
            0 <= i < formats.len() && (#[trigger] formats[i]).codec@ == codec && formats[i].channels
                == 2 && formats[i].sample_rate == 48_000 && formats[i].bit_depth == 16;
        assert(is_wire_format(formats[i], codec));
    }
}

/// What a device's greeting says it accepts is what is known of it afterwards, and it
/// is news exactly where something else was known. Only that device is touched, and
/// nothing else is changed of it; a greeting without formats, or of a device that is
/// not known, changes nothing.
pub proof fn law_a_greeting_is_remembered(
    before: Map<Seq<char>, SendspinDevice>,
    after: Map<Seq<char>, SendspinDevice>,
    node: Seq<char>,
    formats: Option<Seq<AudioFormatSpec>>,
)
    requires
        formats_noted(before, after, node, formats),
    ensures
        formats is None || !before.contains_key(node) ==> after == before && !formats_are_news(
            before,
            node,
            formats,
        ),
        formats is Some && before.contains_key(node) ==> {
            &&& after.contains_key(node)
            &&& views(after[node].supported_codecs@) == usable_codecs(formats->0)
            &&& after[node].fullname == before[node].fullname
            &&& after[node].url == before[node].url
            &&& after[node].present == before[node].present
            &&& after[node].addr == before[node].addr
            &&& after[node].min_buffer_ms == before[node].min_buffer_ms
            &&& after[node].required_lead_time_ms == before[node].required_lead_time_ms
            &&& formats_are_news(before, node, formats) <==> views(
                before[node].supported_codecs@,
            ) != usable_codecs(formats->0)
        },
        forall|k: Seq<char>|
            k != node ==> after.contains_key(k) == before.contains_key(k) && #[trigger] after[k]
                == before[k],
{
}

/// A device decodes what it lists, whatever the case it is spelled in, and nothing
/// else; one that has not said yet is only sure of PCM.
pub proof fn law_a_device_decodes_what_it_lists(codecs: Seq<Seq<char>>, codec: Seq<char>)
    ensures
        codecs.contains(codec) ==> decodes(codecs, codec),
        codecs.len() > 0 && (forall|i: int|
            0 <= i < codecs.len() ==> lower_all(#[trigger] codecs[i]) != lower_all(codec))
            ==> !decodes(codecs, codec),
        codecs.len() > 0 ==> forall|i: int|
            0 <= i < codecs.len() && lower_all(#[trigger] codecs[i]) == lower_all(codec) ==> decodes(
                codecs,
                codec,
            ),
        codecs.len() == 0 ==> (decodes(codecs, codec) <==> lower_all(codec) == lower_all("pcm"@)),
{
    if codecs.contains(codec) {
        let i = choose|i: int| 0 <= i < codecs.len() && codecs[i] == codec;
        assert(same_codec(codecs[i], codec));
    }
    assert forall|i: int|
        codecs.len() > 0 && 0 <= i < codecs.len() && lower_all(#[trigger] codecs[i]) == lower_all(
            codec,
        ) implies decodes(codecs, codec) by {
        assert(same_codec(codecs[i], codec));
    }
}

/// A pick is followed where every member that has said what it decodes decodes it,
/// and comes out as PCM where one does not; a pick of PCM is always followed. Without
/// a pick it is Opus where every such member decodes that.
pub proof fn law_picks_are_followed_where_they_work(members: Seq<Seq<Seq<char>>>)
    ensures
        resolved_codec(SendspinCodec::Pcm, members) == "pcm"@,
        members_decode(members, "flac"@) ==> resolved_codec(SendspinCodec::Flac, members)
            == "flac"@,
        !members_decode(members, "flac"@) ==> resolved_codec(SendspinCodec::Flac, members)
            == "pcm"@,
        members_decode(members, "opus"@) ==> resolved_codec(SendspinCodec::Opus, members)
            == "opus"@ && resolved_codec(SendspinCodec::Auto, members) == "opus"@,
        !members_decode(members, "opus"@) ==> resolved_codec(SendspinCodec::Opus, members)
            == "pcm"@ && resolved_codec(SendspinCodec::Auto, members) == "pcm"@,
{
    lemma_members_decode(members, "flac"@);
    lemma_members_decode(members, "opus"@);
}

/// Each member that has said what it decodes named this codec.
pub open spec fn members_decode(members: Seq<Seq<Seq<char>>>, codec: Seq<char>) -> bool {
    forall|i: int|
        0 <= i < members.len() && (#[trigger] members[i]).len() > 0 ==> exists|j: int|
            0 <= j < members[i].len() && lower_all(#[trigger] members[i][j]) == lower_all(codec)
}

proof fn lemma_members_decode(members: Seq<Seq<Seq<char>>>, codec: Seq<char>)
    ensures
        encodable(codec) ==> usable(codec, members) == members_decode(members, codec),
{
    if encodable(codec) && usable(codec, members) {
        assert forall|i: int| 0 <= i < members.len() && (#[trigger] members[i]).len() > 0 implies
            exists|j: int|
            0 <= j < members[i].len() && lower_all(#[trigger] members[i][j]) == lower_all(codec) by {
            assert(decodes(members[i], codec));
            let j = choose|j: int|
                0 <= j < members[i].len() && same_codec(#[trigger] members[i][j], codec);
            assert(lower_all(members[i][j]) == lower_all(codec));
        }
    }
    if encodable(codec) && members_decode(members, codec) {
        assert forall|i: int| 0 <= i < members.len() && (#[trigger] members[i]).len() > 0 implies
            decodes(members[i], codec) by {
            let j = choose|j: int|
                0 <= j < members[i].len() && lower_all(#[trigger] members[i][j]) == lower_all(codec);
            assert(same_codec(members[i][j], codec));
        }
    }
}

/// The output of a device is the one it is registered as, where there is exactly one,
/// and else the one that its label is spelled as.
pub proof fn law_a_registered_device_keeps_its_output(
    r: Seq<char>,
    devices: Map<Seq<char>, SendspinDevice>,
    fullname: Seq<char>,
    k: Seq<char>,
)
    requires
        is_node_of(r, devices, fullname),
    ensures
        devices.contains_key(k) && devices[k].fullname@ == fullname && (forall|j: Seq<char>|
            #[trigger] devices.contains_key(j) && devices[j].fullname@ == fullname ==> j == k) ==> r
            == k,
        (exists|j: Seq<char>| #[trigger] devices.contains_key(j) && devices[j].fullname@ == fullname)
            ==> devices.contains_key(r) && devices[r].fullname@ == fullname,
        (forall|j: Seq<char>| #[trigger]
            devices.contains_key(j) ==> devices[j].fullname@ != fullname) ==> r
            == SENDSPIN_DEV_PREFIX@ + slug(before_first_spec(fullname, "._sendspin._tcp"@)),
{
}

/// The figures of a run of blocks, from none on: every lead and every gap lies in the
/// reported range, no packet is larger than the reported one, and each of these
/// bounds is one that was met.
pub proof fn law_figures_bound_every_block(
    stats: Seq<RelayStats>,
    ts: Seq<i64>,
    now: Seq<i64>,
    sizes: Seq<usize>,
)
    requires
        stats.len() == ts.len() + 1,
        now.len() == ts.len(),
        sizes.len() == ts.len(),
        stats[0].is_fresh(),
        forall|i: int|
            0 <= i < ts.len() ==> block_noted(
                #[trigger] stats[i],
                stats[i + 1],
                ts[i],
                now[i],
                sizes[i],
            ),
    ensures
        ({
            let end = stats.last();
            let n = ts.len() as int;
            &&& end.blocks == n
            &&& n > 0 ==> end.prev_ts == Some(ts[n - 1])
            &&& forall|i: int|
                0 <= i < n ==> end.lead_min_us <= #[trigger] ts[i] - now[i] <= end.lead_max_us
            &&& forall|i: int| 0 <= i < n ==> (#[trigger] sizes[i]) <= end.packet_max
            &&& forall|i: int|
                1 <= i < n ==> end.gap_min_us <= #[trigger] ts[i] - ts[i - 1] <= end.gap_max_us
            &&& n > 0 ==> exists|i: int| 0 <= i < n && #[trigger] ts[i] - now[i] == end.lead_min_us
            &&& n > 0 ==> exists|i: int| 0 <= i < n && #[trigger] ts[i] - now[i] == end.lead_max_us
            &&& n > 1 ==> exists|i: int| 1 <= i < n && #[trigger] ts[i] - ts[i - 1] == end.gap_min_us
            &&& n > 1 ==> exists|i: int| 1 <= i < n && #[trigger] ts[i] - ts[i - 1] == end.gap_max_us
            &&& end.packet_max == 0 || exists|i: int|
                0 <= i < n && #[trigger] sizes[i] == end.packet_max
            &&& n < 2 ==> end.gap_min_us == 0 && end.gap_max_us == 0
            &&& end.bursts == 0
            &&& end.dropped_by_device == stats[0].dropped_by_device
        }),
    decreases ts.len(),
{
    let n = ts.len() as int;
    if n > 0 {
        let s2 = stats.drop_last();
        let t2 = ts.drop_last();
        let n2 = now.drop_last();
        let z2 = sizes.drop_last();
        assert forall|i: int| 0 <= i < t2.len() implies block_noted(
            #[trigger] s2[i],
            s2[i + 1],
            t2[i],
            n2[i],
            z2[i],
        ) by {
            assert(block_noted(stats[i], stats[i + 1], ts[i], now[i], sizes[i]));
        }
        law_figures_bound_every_block(s2, t2, n2, z2);
        let was = s2.last();
        let end = stats.last();
        assert(was == stats[n - 1]);
        assert(block_noted(stats[n - 1], stats[n], ts[n - 1], now[n - 1], sizes[n - 1]));
        let lead = ts[n - 1] - now[n - 1];
        assert forall|i: int| 0 <= i < n implies end.lead_min_us <= #[trigger] ts[i] - now[i]
            <= end.lead_max_us by {
            if i < n - 1 {
                assert(t2[i] - n2[i] == ts[i] - now[i]);
            }
        }
        assert forall|i: int| 0 <= i < n implies (#[trigger] sizes[i]) <= end.packet_max by {
            if i < n - 1 {
                assert(z2[i] == sizes[i]);
            }
        }
        assert forall|i: int| 1 <= i < n implies end.gap_min_us <= #[trigger] ts[i] - ts[i - 1]
            <= end.gap_max_us by {
            if i < n - 1 {
                assert(t2[i] - t2[i - 1] == ts[i] - ts[i - 1]);
            }
        }
        if end.lead_min_us != lead {
            let i = choose|i: int| 0 <= i < n - 1 && #[trigger] t2[i] - n2[i] == was.lead_min_us;
            assert(ts[i] - now[i] == end.lead_min_us);
        } else {
            assert(ts[n - 1] - now[n - 1] == end.lead_min_us);
        }
        if end.lead_max_us != lead {
            let i = choose|i: int| 0 <= i < n - 1 && #[trigger] t2[i] - n2[i] == was.lead_max_us;
            assert(ts[i] - now[i] == end.lead_max_us);
        } else {
            assert(ts[n - 1] - now[n - 1] == end.lead_max_us);
        }
        if n > 1 {
            let gap = ts[n - 1] - ts[n - 2];
            assert(was.prev_ts == Some(ts[n - 2]));
            if end.gap_min_us != gap {
                let i = choose|i: int|
                    1 <= i < n - 1 && #[trigger] t2[i] - t2[i - 1] == was.gap_min_us;
                assert(ts[i] - ts[i - 1] == end.gap_min_us);
            } else {
                assert(ts[n - 1] - ts[n - 1 - 1] == end.gap_min_us);
            }
            if end.gap_max_us != gap {
                let i = choose|i: int|
                    1 <= i < n - 1 && #[trigger] t2[i] - t2[i - 1] == was.gap_max_us;
                assert(ts[i] - ts[i - 1] == end.gap_max_us);
            } else {
                assert(ts[n - 1] - ts[n - 1 - 1] == end.gap_max_us);
            }
        } else {
            assert(was.prev_ts is None);
        }
        if end.packet_max == sizes[n - 1] {
            assert(sizes[n - 1] == end.packet_max);
        } else if end.packet_max != 0 {
            let i = choose|i: int| 0 <= i < n - 1 && #[trigger] z2[i] == was.packet_max;
            assert(sizes[i] == end.packet_max);
        }
    }
}

/// Every device that lost chunks is reported with how many, and nothing else is.
pub proof fn law_every_lost_chunk_is_reported(m: Map<Seq<char>, u64>, p: Seq<char>)
    ensures
        forall|k: Seq<char>| #[trigger]
            m.contains_key(k) ==> is_drop_entry(m, k + " x"@ + decimal(m[k] as int)),
        is_drop_entry(m, p) ==> exists|k: Seq<char>| #[trigger]
            m.contains_key(k) && p == k + " x"@ + decimal(m[k] as int),
{
    assert forall|k: Seq<char>| #[trigger] m.contains_key(k) implies is_drop_entry(
        m,
        k + " x"@ + decimal(m[k] as int),
    ) by {
        assert(drop_entry(k, m[k]) == k + " x"@ + decimal(m[k] as int));
    }
}

/// A member that reports its buffer needs that much lead and its delay on top; one that
/// reports none needs the floor of the codec and its delay.
pub proof fn law_a_member_needs_its_buffer_and_its_delay(
    configured_us: int,
    floor_us: int,
    buffer_ms: u32,
    delay_ms: u16,
)
    requires
        configured_us <= 0,
        floor_us >= 0,
    ensures
        lead_us(configured_us, floor_us, seq![(Some(buffer_ms), delay_ms)]) == buffer_ms * 1000
            + delay_ms * 1000,
        lead_us(configured_us, floor_us, seq![(None, delay_ms)]) == floor_us + delay_ms * 1000,
{
    reveal_with_fuel(lead_us, 2);
    assert(seq![(Some(buffer_ms), delay_ms)].drop_last() =~= Seq::<(Option<u32>, u16)>::empty());
    assert(seq![(None::<u32>, delay_ms)].drop_last() =~= Seq::<(Option<u32>, u16)>::empty());
}

} // verus!
