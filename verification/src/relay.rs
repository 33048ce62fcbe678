//! The way of captured audio to the members of a group.
//!
//! What was captured is cut into blocks as the codec needs them. Every block gets one
//! timestamp, the same for all members, and is encoded for each of them by an encoder
//! of its own: a member that is announced to is sent something else than the others.

use crate::bytes::{sample_values, samples_of};
use crate::codec::{block_frames_of, codec_delay_us, next_block, samples_to_us, Encoder, Payload, Reblocker};
use crate::flac::{is_frame, next_frame_number, stereo_samples};
use crate::maps::{lemma_take_next, NameMap, NameSet};
use crate::sendspin::{block_noted, max_int, RelayStats, STATS_INTERVAL_MS};
use vstd::prelude::*;

verus! {

/// A member that a block goes to.
pub struct RelayMember {
    pub client_id: String,
    /// What it is sent in place of the block, while an announcement plays on it.
    pub overlay: Option<Vec<u8>>,
}

/// What came of sending one member its block.
pub struct Sent {
    /// The name it is reported under: its output, or else its client id.
    pub name: String,
    /// The bytes of its packet; none where the block could not be encoded.
    pub size: usize,
    /// Its backlog was full.
    pub dropped: bool,
}

/// The relay of one group.
pub struct Relay {
    pub codec: String,
    pub blocker: Reblocker,
    /// One encoder for each member, by client id.
    pub encoders: NameMap<Encoder>,
    /// How much later than its timestamp a block would be heard.
    pub delay_us: i64,
    pub stats: RelayStats,
}

/// The encoder is one for the codec, and can go on.
pub open spec fn encoder_fits(e: Encoder, codec: Seq<char>) -> bool {
    match e {
        Encoder::Pcm => codec != "opus"@ && codec != "flac"@,
        Encoder::Opus => codec == "opus"@,
        Encoder::Flac(f) => codec == "flac"@ && f.wf() && f.number() < 0x8000_0000,
    }
}

/// The bytes of a block, `None` where any number will do.
pub open spec fn block_bytes_of(codec: Seq<char>) -> Option<usize> {
    match block_frames_of(codec) {
        Some(f) => Some((f * 4) as usize),
        None => None,
    }
}

/// The client ids of the members.
pub open spec fn client_ids(members: Seq<RelayMember>) -> Seq<Seq<char>> {
    members.map_values(|m: RelayMember| m.client_id@)
}

/// What a member is sent in place of `block`.
pub open spec fn audio_for(m: RelayMember, block: Seq<u8>) -> Seq<u8> {
    match m.overlay {
        Some(o) => o@,
        None => block,
    }
}

/// The number of the next frame for a member: a new one starts at 0.
pub open spec fn frame_for(encoders: Map<Seq<char>, Encoder>, id: Seq<char>) -> int {
    if encoders.contains_key(id) && encoders[id] is Flac {
        encoders[id]->Flac_0.number()
    } else {
        0
    }
}

/// `p` is what `audio` is encoded as: itself, the samples for the Opus encoder, or a
/// FLAC frame with this number.
pub open spec fn is_encoded(p: Option<Payload>, codec: Seq<char>, audio: Seq<u8>, number: int) -> bool {
    if codec == "opus"@ {
        p matches Some(Payload::Opus(s)) && sample_values(s@) == samples_of(audio)
    } else if codec == "flac"@ {
        p matches Some(Payload::Bytes(b)) && is_frame(b@, number, stereo_samples(audio))
    } else {
        p matches Some(Payload::Bytes(b)) && b@ == audio
    }
}

/// How often each name lost a chunk, once the first `n` outcomes are counted.
pub open spec fn losses(
    before: Map<Seq<char>, u64>,
    sent: Seq<Sent>,
    n: int,
) -> Map<Seq<char>, u64>
    decreases
            if n > 0 {
                n
            } else {
                0
            },
{
    if n <= 0 {
        before
    } else {
        let rest = losses(before, sent, n - 1);
        if sent[n - 1].dropped {
            let name = sent[n - 1].name@;
            rest.insert(
                name,
                if rest.contains_key(name) {
                    (rest[name] + 1) as u64
                } else {
                    1
                },
            )
        } else {
            rest
        }
    }
}

/// The largest of the first `n` packets.
pub open spec fn largest(sent: Seq<Sent>, n: int) -> int
    decreases
            if n > 0 {
                n
            } else {
                0
            },
{
    if n <= 0 {
        0
    } else {
        max_int(largest(sent, n - 1), sent[n - 1].size as int)
    }
}

/// No count of lost chunks can run over with this many more.
pub open spec fn losses_fit(m: Map<Seq<char>, u64>, more: int) -> bool {
    forall|k: Seq<char>| #[trigger] m.contains_key(k) ==> m[k] + more <= u64::MAX
}

impl Relay {
    /// Blocks have the size the codec needs, and every encoder is one for the codec.
    pub open spec fn wf(self) -> bool {
        &&& self.blocker.block_bytes == block_bytes_of(self.codec@)
        &&& forall|k: Seq<char>| #[trigger]
            self.encoders@.contains_key(k) ==> encoder_fits(self.encoders@[k], self.codec@)
    }

    /// A relay for a codec. `opus_lookahead` is that of an Opus encoder.
    pub fn new(codec: &str, opus_lookahead: Option<i32>) -> (r: Self)
        ensures
            r.wf(),
            r.codec@ == codec@,
            r.blocker.buf@ == Seq::<u8>::empty(),
            r.encoders@ == Map::<Seq<char>, Encoder>::empty(),
            r.delay_us == if codec@ == "opus"@ && opus_lookahead is Some {
                samples_to_us(opus_lookahead->0 as int)
            } else {
                0
            },
            r.stats.is_fresh(),
    {
        Relay {
            codec: String::from_str(codec),
            blocker: Reblocker::new(Encoder::block_frames(codec)),
            encoders: NameMap::new(),
            delay_us: codec_delay_us(codec, opus_lookahead),
            stats: RelayStats::new(),
        }
    }

    /// The timestamp of a block: what the timeline says, less what the codec adds.
    pub fn stamp(&self, at: i64) -> (r: i64)
        requires
            i64::MIN <= at - self.delay_us <= i64::MAX,
        ensures
            r == at - self.delay_us,
    {
        at - self.delay_us
    }

    /// Encodes the next block for every member. A member that is new gets an encoder
    /// of its own, and those of members that left are given up.
    pub fn fan_out(&mut self, len: usize, members: &Vec<RelayMember>) -> (r: Vec<Option<Payload>>)
        requires
            old(self).wf(),
            next_block(old(self).blocker.buf@.len() as int, old(self).blocker.block_bytes) == Some(
                len as int,
            ),
            client_ids(members@).no_duplicates(),
            forall|i: int|
                0 <= i < members@.len() && (#[trigger] members@[i]).overlay is Some
                    ==> members@[i].overlay->0@.len() == len,
        ensures
            final(self).wf(),
            final(self).codec == old(self).codec,
            final(self).blocker == old(self).blocker,
            final(self).delay_us == old(self).delay_us,
            final(self).stats == old(self).stats,
            final(self).encoders@.dom() == client_ids(members@).to_set(),
            r@.len() == members@.len(),
            forall|i: int|
                0 <= i < members@.len() ==> is_encoded(
                    #[trigger] r@[i],
                    old(self).codec@,
                    audio_for(members@[i], old(self).blocker.buf@.take(len as int)),
                    frame_for(old(self).encoders@, members@[i].client_id@),
                ),
            forall|i: int|
                0 <= i < members@.len() && old(self).codec@ == "flac"@ ==> frame_for(
                    final(self).encoders@,
                    (#[trigger] members@[i]).client_id@,
                ) == next_frame_number(frame_for(old(self).encoders@, members@[i].client_id@)),
    {
        let ghost before = self.encoders@;
        let ghost ids = client_ids(members@);
        let ghost block = self.blocker.buf@.take(len as int);
        let ghost codec = self.codec@;
        let mut out: Vec<Option<Payload>> = Vec::new();
        let mut seen = NameSet::new();
        let mut i: usize = 0;
        while i < members.len()
            invariant
                i <= members@.len(),
                out@.len() == i,
                self.wf(),
                self.codec == old(self).codec,
                self.blocker == old(self).blocker,
                self.delay_us == old(self).delay_us,
                self.stats == old(self).stats,
                next_block(self.blocker.buf@.len() as int, self.blocker.block_bytes) == Some(
                    len as int,
                ),
                codec == self.codec@,
                before == old(self).encoders@,
                forall|k: Seq<char>| #[trigger]
                    before.contains_key(k) ==> encoder_fits(before[k], codec),
                block == self.blocker.buf@.take(len as int),
                block.len() == len,
                ids == client_ids(members@),
                ids.no_duplicates(),
                forall|k: int|
                    0 <= k < members@.len() && (#[trigger] members@[k]).overlay is Some
                        ==> members@[k].overlay->0@.len() == len,
                forall|k: Seq<char>| #[trigger]
                    seen@.contains(k) <==> ids.take(i as int).contains(k),
                forall|k: Seq<char>| #[trigger]
                    self.encoders@.contains_key(k) <==> before.contains_key(k) || ids.take(
                        i as int,
                    ).contains(k),
                forall|k: int|
                    i <= k < members@.len() ==> frame_for(
                        self.encoders@,
                        (#[trigger] members@[k]).client_id@,
                    ) == frame_for(before, members@[k].client_id@),
                forall|k: int|
                    0 <= k < i && codec == "flac"@ ==> frame_for(
                        self.encoders@,
                        (#[trigger] members@[k]).client_id@,
                    ) == next_frame_number(frame_for(before, members@[k].client_id@)),
                forall|k: int|
                    0 <= k < i ==> is_encoded(
                        #[trigger] out@[k],
                        codec,
                        audio_for(members@[k], block),
                        frame_for(before, members@[k].client_id@),
                    ),
            decreases members.len() - i,
        {
            let m = &members[i];
            let ghost id = m.client_id@;
            let ghost audio = audio_for(*m, block);
            let ghost mid = self.encoders@;
            proof {
                lemma_take_next(ids, i as int);
                assert(ids[i as int] == id);
                assert forall|k: int| 0 <= k < members@.len() && k != i implies (
                #[trigger] members@[k]).client_id@ != id by {
                    assert(ids[k] == members@[k].client_id@);
                }
            }
            let mut encoder = match self.encoders.remove(&m.client_id) {
                Some(e) => e,
                None => match Encoder::new(&self.codec) {
                    Some(e) => e,
                    None => Encoder::Pcm,
                },
            };
            proof {
                reveal_strlit("pcm");
                reveal_strlit("opus");
                reveal_strlit("flac");
                assert("pcm"@[0] != "opus"@[0]);
                assert("pcm"@[0] != "flac"@[0]);
                assert("opus"@[0] != "flac"@[0]);
                assert(encoder_fits(encoder, codec));
            }
            let ghost number = frame_for(before, id);
            assert(encoder is Flac ==> encoder->Flac_0.number() == number);
            assert(audio.len() == len);
            let payload = match &m.overlay {
                Some(o) => encoder.encode(o.as_slice()),
                None => encoder.encode(self.blocker.block(len)),
            };
            assert(encoder_fits(encoder, codec));
            assert(is_encoded(payload, codec, audio, number));
            self.encoders.insert(m.client_id.clone(), encoder);
            assert(self.encoders@ =~= mid.insert(id, encoder));
            seen.insert(m.client_id.clone());
            out.push(payload);
            i += 1;
        }
        let ghost mid = self.encoders@;
        self.encoders.retain(&seen);
        proof {
            assert(ids.take(i as int) =~= ids);
            assert(self.encoders@.dom() =~= ids.to_set());
            assert forall|k: int| 0 <= k < members@.len() && codec == "flac"@ implies frame_for(
                self.encoders@,
                (#[trigger] members@[k]).client_id@,
            ) == next_frame_number(frame_for(before, members@[k].client_id@)) by {
                assert(ids[k] == members@[k].client_id@);
                assert(ids.contains(members@[k].client_id@));
            }
        }
        out
    }

    /// Takes a block off, and notes what came of sending it.
    pub fn finish_block(&mut self, len: usize, ts: i64, now_us: i64, sent: &Vec<Sent>)
        requires
            old(self).wf(),
            len <= old(self).blocker.buf@.len(),
            old(self).stats.blocks < u64::MAX,
            i64::MIN <= ts - now_us <= i64::MAX,
            old(self).stats.prev_ts matches Some(p) ==> i64::MIN <= ts - p <= i64::MAX,
            losses_fit(old(self).stats.dropped_by_device@, sent@.len() as int),
        ensures
            final(self).wf(),
            final(self).codec == old(self).codec,
            final(self).delay_us == old(self).delay_us,
            final(self).encoders == old(self).encoders,
            final(self).blocker.buf@ == old(self).blocker.buf@.skip(len as int),
            final(self).stats.dropped_by_device@ == losses(
                old(self).stats.dropped_by_device@,
                sent@,
                sent@.len() as int,
            ),
            block_noted(
                RelayStats {
                    dropped_by_device: final(self).stats.dropped_by_device,
                    ..old(self).stats
                },
                final(self).stats,
                ts,
                now_us,
                largest(sent@, sent@.len() as int) as usize,
            ),
    {
        let ghost before = self.stats.dropped_by_device@;
        let mut most: usize = 0;
        let mut i: usize = 0;
        while i < sent.len()
            invariant
                i <= sent@.len(),
                most == largest(sent@, i as int),
                self.wf(),
                self.codec == old(self).codec,
                self.delay_us == old(self).delay_us,
                self.encoders == old(self).encoders,
                self.blocker == old(self).blocker,
                self.stats.dropped_by_device@ == losses(before, sent@, i as int),
                losses_fit(self.stats.dropped_by_device@, sent@.len() - i),
                self.stats == (RelayStats {
                    dropped_by_device: self.stats.dropped_by_device,
                    ..old(self).stats
                }),
            decreases sent.len() - i,
        {
            let s = &sent[i];
            if s.size > most {
                most = s.size;
            }
            if s.dropped {
                self.stats.note_dropped(&s.name);
            }
            i += 1;
        }
        self.blocker.consume(len);
        self.stats.note_block(ts, now_us, most);
    }

    /// Ends a captured chunk that gave this many blocks. Gives back what is to be
    /// reported, where a report is due, and starts counting anew.
    pub fn chunk_done(&mut self, emitted: usize, elapsed_ms: u64) -> (r: Option<RelayStats>)
        requires
            old(self).wf(),
            old(self).stats.bursts < u64::MAX,
        ensures
            final(self).wf(),
            final(self).codec == old(self).codec,
            final(self).delay_us == old(self).delay_us,
            final(self).encoders == old(self).encoders,
            final(self).blocker == old(self).blocker,
            r is Some <==> elapsed_ms >= STATS_INTERVAL_MS && (block_frames_of(old(
                self).codec@) is Some || old(self).stats.dropped_by_device@.dom() !~= Set::<
                Seq<char>,
            >::empty()),
            ({
                let noted = match r {
                    Some(s) => s,
                    None => final(self).stats,
                };
                &&& noted.bursts == old(self).stats.bursts + if emitted > 1 {
                    1int
                } else {
                    0
                }
                &&& noted == (RelayStats { bursts: noted.bursts, ..old(self).stats })
            }),
            r is Some ==> final(self).stats.is_fresh(),
    {
        self.stats.note_chunk(emitted);
        if self.stats.report_due(Encoder::block_frames(&self.codec), elapsed_ms) {
            let mut fresh = RelayStats::new();
            std::mem::swap(&mut self.stats, &mut fresh);
            Some(fresh)
        } else {
            None
        }
    }
}

/// Members that nothing is announced to are sent the same: what they get depends on
/// the block and, for a predictive codec, on how far their own stream is, and on
/// nothing else.
pub proof fn law_members_hear_the_same(
    codec: Seq<char>,
    block: Seq<u8>,
    number: int,
    a: Payload,
    b: Payload,
)
    requires
        is_encoded(Some(a), codec, block, number),
        is_encoded(Some(b), codec, block, number),
        codec != "flac"@,
    ensures
        a is Opus <==> b is Opus,
        a is Bytes ==> a->Bytes_0@ == b->Bytes_0@,
        a is Opus ==> sample_values(a->Opus_0@) == sample_values(b->Opus_0@),
{
}

/// How many of the first `n` outcomes were a loss of this name.
pub open spec fn lost(sent: Seq<Sent>, n: int, name: Seq<char>) -> int
    decreases
            if n > 0 {
                n
            } else {
                0
            },
{
    if n <= 0 {
        0
    } else {
        lost(sent, n - 1, name) + if sent[n - 1].dropped && sent[n - 1].name@ == name {
            1int
        } else {
            0
        }
    }
}

/// Every lost chunk is counted, for the member that lost it and for nobody else.
pub proof fn law_every_loss_is_counted(
    before: Map<Seq<char>, u64>,
    sent: Seq<Sent>,
    n: int,
    name: Seq<char>,
)
    requires
        0 <= n <= sent.len(),
        losses_fit(before, n),
        n <= u64::MAX,
    ensures
        ({
            let had: int = if before.contains_key(name) {
                before[name] as int
            } else {
                0
            };
            let after = losses(before, sent, n);
            &&& after.contains_key(name) <==> before.contains_key(name) || lost(sent, n, name) > 0
            &&& after.contains_key(name) ==> after[name] == had + lost(sent, n, name)
            &&& 0 <= lost(sent, n, name) <= n
        }),
    decreases n,
{
    if n > 0 {
        assert(losses_fit(before, n - 1)) by {
            assert forall|k: Seq<char>| #[trigger] before.contains_key(k) implies before[k] + (n - 1)
                <= u64::MAX by {}
        }
        law_every_loss_is_counted(before, sent, n - 1, name);
        if before.contains_key(name) {
            assert(before[name] + n <= u64::MAX);
        }
    }
}

/// The largest packet is one that was sent, and none is larger.
pub proof fn law_the_largest_packet_is_reported(sent: Seq<Sent>, n: int)
    requires
        0 <= n <= sent.len(),
    ensures
        forall|i: int| 0 <= i < n ==> (#[trigger] sent[i]).size <= largest(sent, n),
        n > 0 ==> exists|i: int| 0 <= i < n && (#[trigger] sent[i]).size == largest(sent, n),
        n == 0 ==> largest(sent, n) == 0,
    decreases n,
{
    if n > 0 {
        law_the_largest_packet_is_reported(sent, n - 1);
        assert(sent[n - 1].size >= 0);
        if n == 1 || largest(sent, n) == sent[n - 1].size {
            assert(sent[n - 1].size == largest(sent, n));
        } else {
            let i = choose|i: int|
                0 <= i < n - 1 && (#[trigger] sent[i]).size == largest(sent, n - 1);
            assert(sent[i].size == largest(sent, n));
        }
    }
}

/// A member that an announcement plays on is sent the announcement in place of the
/// block, any other member the block itself; where that is not compressed, byte for
/// byte.
pub proof fn law_announcements_replace_the_block(
    m: RelayMember,
    block: Seq<u8>,
    codec: Seq<char>,
    number: int,
    p: Payload,
)
    requires
        codec != "opus"@,
        codec != "flac"@,
        is_encoded(Some(p), codec, audio_for(m, block), number),
    ensures
        m.overlay is Some ==> p is Bytes && p->Bytes_0@ == m.overlay->0@,
        m.overlay is None ==> p is Bytes && p->Bytes_0@ == block,
{
}

/// The same for a compressed stream: what is compressed is the announcement, or else
/// the block, under the number that comes next in the member's own stream.
pub proof fn law_announcements_are_compressed_like_the_block(
    m: RelayMember,
    block: Seq<u8>,
    encoders: Map<Seq<char>, Encoder>,
    p: Payload,
)
    ensures
        is_encoded(Some(p), "opus"@, audio_for(m, block), 0) ==> p is Opus && sample_values(
            p->Opus_0@,
        ) == samples_of(
            if m.overlay is Some {
                m.overlay->0@
            } else {
                block
            },
        ),
        is_encoded(
            Some(p),
            "flac"@,
            audio_for(m, block),
            frame_for(encoders, m.client_id@),
        ) ==> p is Bytes && is_frame(
            p->Bytes_0@,
            if encoders.contains_key(m.client_id@) && encoders[m.client_id@] is Flac {
                encoders[m.client_id@]->Flac_0.number()
            } else {
                0
            },
            stereo_samples(
                if m.overlay is Some {
                    m.overlay->0@
                } else {
                    block
                },
            ),
        ),
{
    reveal_strlit("opus");
    reveal_strlit("flac");
    assert("opus"@[0] == 'o');
    assert("flac"@[0] == 'f');
}

/// A block of a codec that needs whole blocks has four bytes for each of its frames.
pub proof fn law_blocks_hold_whole_frames(codec: Seq<char>)
    ensures
        block_frames_of(codec) matches Some(f) ==> f * 4 <= usize::MAX ==> block_bytes_of(codec)
            is Some && block_bytes_of(codec)->0 == f * 4,
        block_frames_of(codec) is None ==> block_bytes_of(codec) is None,
{
}

} // verus!
