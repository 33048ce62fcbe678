//! The wire codecs: cutting the captured stream into blocks, what each codec
//! needs of block size, lead and header, and the encoder of one member.

use crate::bytes::{sample_values, samples_from_le, samples_of};
use crate::flac::{is_frame, next_frame_number, stereo_samples, FlacEncoder, CHANNELS, FLAC_BLOCK_FRAMES, SAMPLE_RATE};
use crate::text::same;
use vstd::prelude::*;

verus! {

/// Bytes per interleaved frame of the capture format.
pub const BYTES_PER_FRAME: usize = 4;

/// The frames of one Opus block: 20 ms.
pub const OPUS_FRAME_FRAMES: usize = 960;

/// The target bit rate of Opus.
pub const OPUS_BITRATE: i32 = 160000;

/// The complexity Opus is run at, of 0 to 10.
pub const OPUS_COMPLEXITY: i32 = 5;

/// The most bytes one Opus packet may take.
pub const OPUS_MAX_PACKET: usize = 4000;

/// The send-ahead floor Opus is shipped with: two blocks.
pub const DEFAULT_OPUS_FLOOR_MS: u32 = 40;

// ---- re-blocking -------------------------------------------------------------

/// Cuts the captured stream into blocks of a fixed size, or passes it through.
pub struct Reblocker {
    pub buf: Vec<u8>,
    pub block_bytes: Option<usize>,
}

/// The length of the next block, where one is there.
pub open spec fn next_block(buffered: int, block_bytes: Option<usize>) -> Option<int> {
    match block_bytes {
        Some(b) => if buffered >= b {
            Some(b as int)
        } else {
            None
        },
        None => if buffered > 0 {
            Some(buffered)
        } else {
            None
        },
    }
}

impl Reblocker {
    /// A re-blocker for blocks of this many frames; `None` passes everything
    /// through.
    pub fn new(block_frames: Option<usize>) -> (r: Self)
        requires
            block_frames matches Some(f) ==> f <= usize::MAX / 8,
        ensures
            r.buf@ == Seq::<u8>::empty(),
            r.block_bytes == match block_frames {
                Some(f) => Some((f * BYTES_PER_FRAME) as usize),
                None => None,
            },
    {
        match block_frames {
            Some(f) => {
                let b: usize = f * BYTES_PER_FRAME;
                // Two blocks hold a quantum that straddles a block boundary, so the
                // steady state never grows the buffer.
                Reblocker { buf: Vec::with_capacity(b * 2), block_bytes: Some(b) }
            },
            None => Reblocker { buf: Vec::with_capacity(8192), block_bytes: None },
        }
    }

    /// Appends a captured chunk.
    pub fn push(&mut self, pcm: &[u8])
        ensures
            final(self).buf@ == old(self).buf@ + pcm@,
            final(self).block_bytes == old(self).block_bytes,
            steps_to(*old(self), Step::Push(pcm@), *final(self)),
    {
        let ghost before = self.buf@;
        let mut i: usize = 0;
        while i < pcm.len()
            invariant
                i <= pcm@.len(),
                self.buf@ == before + pcm@.take(i as int),
                self.block_bytes == old(self).block_bytes,
            decreases pcm.len() - i,
        {
            self.buf.push(pcm[i]);
            assert(self.buf@ =~= before + pcm@.take(i + 1));
            i += 1;
        }
        assert(pcm@.take(i as int) =~= pcm@);
    }

    /// The length of the next complete block in bytes, or `None` while more
    /// audio is needed. Without a block size it is whatever is there.
    pub fn ready(&self) -> (r: Option<usize>)
        ensures
            (match r {
                Some(n) => Some(n as int),
                None => None,
            }) == next_block(self.buf@.len() as int, self.block_bytes),
            r matches Some(n) ==> n <= self.buf@.len(),
            match self.block_bytes {
                Some(b) => b > 0 ==> (r is Some <==> blocks_of(self.buf@, b as nat).len() > 0) && (
                r is None ==> rest_of(self.buf@, b as nat) == self.buf@),
                None => true,
            },
    {
        match self.block_bytes {
            Some(b) => if self.buf.len() >= b {
                Some(b)
            } else {
                None
            },
            None => if self.buf.len() > 0 {
                Some(self.buf.len())
            } else {
                None
            },
        }
    }

    /// The first `len` bytes: the block that [`Self::ready`] reported.
    pub fn block(&self, len: usize) -> (r: &[u8])
        requires
            len <= self.buf@.len(),
        ensures
            r@ == self.buf@.take(len as int),
    {
        let r = vstd::slice::slice_subrange(self.buf.as_slice(), 0, len);
        assert(r@ =~= self.buf@.take(len as int));
        r
    }

    /// Drops the first `len` bytes and keeps the rest for the next block.
    pub fn consume(&mut self, len: usize)
        requires
            len <= old(self).buf@.len(),
        ensures
            final(self).buf@ == old(self).buf@.skip(len as int),
            final(self).block_bytes == old(self).block_bytes,
            next_block(old(self).buf@.len() as int, old(self).block_bytes) == Some(len as int)
                ==> steps_to(
                *old(self),
                Step::Take(old(self).buf@.take(len as int)),
                *final(self),
            ),
            old(self).block_bytes == Some(len) && len > 0 ==> blocks_of(old(self).buf@, len as nat)
                == seq![old(self).buf@.take(len as int)] + blocks_of(final(self).buf@, len as nat)
                && rest_of(old(self).buf@, len as nat) == rest_of(final(self).buf@, len as nat),
    {
        let ghost before = self.buf@;
        let rest: usize = self.buf.len() - len;
        let mut i: usize = 0;
        while i < rest
            invariant
                i <= rest,
                rest + len == self.buf.len(),
                self.buf@.len() == before.len(),
                forall|j: int| 0 <= j < i ==> #[trigger] self.buf@[j] == before[j + len],
                forall|j: int| i <= j < before.len() ==> #[trigger] self.buf@[j] == before[j],
                self.block_bytes == old(self).block_bytes,
            decreases rest - i,
        {
            let b: u8 = self.buf[i + len];
            self.buf.set(i, b);
            i += 1;
        }
        self.buf.truncate(rest);
        assert(self.buf@ =~= before.skip(len as int));
    }
}

/// The complete blocks of `size` bytes at the front of a stream.
pub open spec fn blocks_of(stream: Seq<u8>, size: nat) -> Seq<Seq<u8>>
    decreases stream.len(),
{
    if size == 0 || stream.len() < size {
        Seq::empty()
    } else {
        seq![stream.take(size as int)] + blocks_of(stream.skip(size as int), size)
    }
}

/// What a stream leaves over behind its complete blocks.
pub open spec fn rest_of(stream: Seq<u8>, size: nat) -> Seq<u8>
    decreases stream.len(),
{
    if size == 0 || stream.len() < size {
        stream
    } else {
        rest_of(stream.skip(size as int), size)
    }
}

/// The blocks in a row.
pub open spec fn rejoined(blocks: Seq<Seq<u8>>) -> Seq<u8>
    decreases blocks.len(),
{
    if blocks.len() == 0 {
        Seq::empty()
    } else {
        blocks[0] + rejoined(blocks.skip(1))
    }
}

/// Re-blocking neither loses nor changes a byte: the blocks that are taken off a
/// stream by `ready`, `block` and `consume`, in a row and followed by what is
/// left, are the stream. Every block has exactly the block size, and less than
/// one block is left.
pub proof fn law_blocks_conserve_the_stream(stream: Seq<u8>, size: nat)
    requires
        size > 0,
    ensures
        rejoined(blocks_of(stream, size)) + rest_of(stream, size) == stream,
        forall|i: int|
            0 <= i < blocks_of(stream, size).len() ==> (#[trigger] blocks_of(stream, size)[i]).len()
                == size,
        rest_of(stream, size).len() < size,
    decreases stream.len(),
{
    if stream.len() < size {
        assert(rejoined(blocks_of(stream, size)) + rest_of(stream, size) =~= stream);
    } else {
        let first = stream.take(size as int);
        let tail = stream.skip(size as int);
        law_blocks_conserve_the_stream(tail, size);
        let rest = blocks_of(tail, size);
        let all = blocks_of(stream, size);
        assert(all.skip(1) =~= rest);
        assert(all[0] == first);
        assert(rejoined(all) + rest_of(stream, size) =~= first + (rejoined(rest) + rest_of(
            tail,
            size,
        )));
        assert(first + tail =~= stream);
        assert forall|i: int| 0 <= i < all.len() implies (#[trigger] all[i]).len() == size by {
            if i > 0 {
                assert(all[i] == rest[i - 1]);
            }
        }
    }
}

/// How a stream is cut does not depend on how it arrived: what one push leaves
/// over is cut together with what the next push brings.
pub proof fn law_blocks_ignore_chunking(a: Seq<u8>, b: Seq<u8>, size: nat)
    requires
        size > 0,
    ensures
        blocks_of(a + b, size) == blocks_of(a, size) + blocks_of(rest_of(a, size) + b, size),
        rest_of(a + b, size) == rest_of(rest_of(a, size) + b, size),
    decreases a.len(),
{
    if a.len() < size {
        assert(blocks_of(a, size) + blocks_of(a + b, size) =~= blocks_of(a + b, size));
    } else {
        let tail = a.skip(size as int);
        law_blocks_ignore_chunking(tail, b, size);
        assert((a + b).take(size as int) =~= a.take(size as int));
        assert((a + b).skip(size as int) =~= tail + b);
        assert(blocks_of(a + b, size) =~= blocks_of(a, size) + blocks_of(
            rest_of(a, size) + b,
            size,
        ));
    }
}

/// One step of a re-blocker: a chunk is appended, or the block that is ready is taken.
pub ghost enum Step {
    Push(Seq<u8>),
    Take(Seq<u8>),
}

/// The step leads from the one state of a re-blocker to the other.
pub open spec fn steps_to(before: Reblocker, step: Step, after: Reblocker) -> bool {
    &&& after.block_bytes == before.block_bytes
    &&& match step {
        Step::Push(pcm) => after.buf@ == before.buf@ + pcm,
        Step::Take(block) => {
            &&& next_block(before.buf@.len() as int, before.block_bytes) == Some(block.len() as int)
            &&& block == before.buf@.take(block.len() as int)
            &&& after.buf@ == before.buf@.skip(block.len() as int)
        },
    }
}

/// The states are those of a new re-blocker that takes these steps.
pub open spec fn is_run(block_frames: usize, steps: Seq<Step>, states: Seq<Reblocker>) -> bool {
    &&& states.len() == steps.len() + 1
    &&& states[0].buf@ == Seq::<u8>::empty()
    &&& states[0].block_bytes == Some((block_frames * BYTES_PER_FRAME) as usize)
    &&& forall|i: int|
        0 <= i < steps.len() ==> #[trigger] steps_to(states[i], steps[i], states[i + 1])
}

/// The chunks that were appended, in order.
pub open spec fn chunks_pushed(steps: Seq<Step>) -> Seq<Seq<u8>>
    decreases steps.len(),
{
    if steps.len() == 0 {
        Seq::empty()
    } else {
        match steps.last() {
            Step::Push(pcm) => chunks_pushed(steps.drop_last()).push(pcm),
            Step::Take(_) => chunks_pushed(steps.drop_last()),
        }
    }
}

/// The blocks that were taken, in order.
pub open spec fn blocks_taken(steps: Seq<Step>) -> Seq<Seq<u8>>
    decreases steps.len(),
{
    if steps.len() == 0 {
        Seq::empty()
    } else {
        match steps.last() {
            Step::Push(_) => blocks_taken(steps.drop_last()),
            Step::Take(block) => blocks_taken(steps.drop_last()).push(block),
        }
    }
}

/// However chunks arrive and blocks are taken, nothing is dropped, repeated, reordered
/// or cut short: every block that was taken has the block size, and the blocks in a
/// row, followed by what the re-blocker still holds, are the chunks in a row. As soon
/// as no block is ready, less than one block is held, and what was taken are all the
/// complete blocks of the stream.
pub proof fn law_a_run_conserves_the_stream(
    block_frames: usize,
    steps: Seq<Step>,
    states: Seq<Reblocker>,
)
    requires
        0 < block_frames <= usize::MAX / 8,
        is_run(block_frames, steps, states),
    ensures
        ({
            let size = (block_frames * BYTES_PER_FRAME) as nat;
            let stream = rejoined(chunks_pushed(steps));
            let taken = blocks_taken(steps);
            let held = states.last().buf@;
            &&& states.last().block_bytes == Some(size as usize)
            &&& forall|i: int| 0 <= i < taken.len() ==> (#[trigger] taken[i]).len() == size
            &&& rejoined(taken) + held == stream
            &&& rejoined(taken).is_prefix_of(stream)
            &&& next_block(held.len() as int, states.last().block_bytes) is None ==> held.len()
                < size && taken == blocks_of(stream, size) && held == rest_of(stream, size)
        }),
    decreases steps.len(),
{
    let size = (block_frames * BYTES_PER_FRAME) as nat;
    let stream = rejoined(chunks_pushed(steps));
    let taken = blocks_taken(steps);
    let held = states.last().buf@;
    if steps.len() == 0 {
        assert(rejoined(taken) + held =~= stream);
    } else {
        let n = steps.len() as int;
        let fewer = steps.drop_last();
        let earlier = states.drop_last();
        assert forall|i: int| 0 <= i < fewer.len() implies #[trigger] steps_to(
            earlier[i],
            fewer[i],
            earlier[i + 1],
        ) by {
            assert(steps_to(states[i], steps[i], states[i + 1]));
        }
        law_a_run_conserves_the_stream(block_frames, fewer, earlier);
        let before = states[n - 1].buf@;
        assert(earlier.last() == states[n - 1]);
        assert(steps_to(states[n - 1], steps[n - 1], states[n - 1 + 1]));
        match steps.last() {
            Step::Push(pcm) => {
                lemma_rejoined_push(chunks_pushed(fewer), pcm);
                assert(rejoined(taken) + held =~= stream);
            },
            Step::Take(block) => {
                lemma_rejoined_push(blocks_taken(fewer), block);
                assert(block + held =~= before);
                assert(rejoined(taken) + held =~= rejoined(blocks_taken(fewer)) + before);
            },
        }
    }
    assert(rejoined(taken) =~= stream.take(rejoined(taken).len() as int));
    if next_block(held.len() as int, states.last().block_bytes) is None {
        lemma_cut(taken, held, size);
    }
}

proof fn lemma_rejoined_push(blocks: Seq<Seq<u8>>, block: Seq<u8>)
    ensures
        rejoined(blocks.push(block)) == rejoined(blocks) + block,
    decreases blocks.len(),
{
    let more = blocks.push(block);
    if blocks.len() == 0 {
        assert(more.skip(1) =~= Seq::<Seq<u8>>::empty());
        assert(rejoined(more.skip(1)) == Seq::<u8>::empty());
        assert(rejoined(more) =~= rejoined(blocks) + block);
    } else {
        lemma_rejoined_push(blocks.skip(1), block);
        assert(more.skip(1) =~= blocks.skip(1).push(block));
        assert(rejoined(more) =~= rejoined(blocks) + block);
    }
}

/// There is one way to cut a stream.
proof fn lemma_cut(blocks: Seq<Seq<u8>>, rest: Seq<u8>, size: nat)
    requires
        rest.len() < size,
        forall|i: int| 0 <= i < blocks.len() ==> (#[trigger] blocks[i]).len() == size,
    ensures
        blocks_of(rejoined(blocks) + rest, size) == blocks,
        rest_of(rejoined(blocks) + rest, size) == rest,
    decreases blocks.len(),
{
    let stream = rejoined(blocks) + rest;
    if blocks.len() == 0 {
        assert(stream =~= rest);
        assert(blocks_of(stream, size) =~= blocks);
    } else {
        let tail = blocks.skip(1);
        assert forall|i: int| 0 <= i < tail.len() implies (#[trigger] tail[i]).len() == size by {
            assert(tail[i] == blocks[i + 1]);
        }
        lemma_cut(tail, rest, size);
        assert(blocks[0].len() == size);
        assert(stream.take(size as int) =~= blocks[0]);
        assert(stream.skip(size as int) =~= rejoined(tail) + rest);
        assert(blocks_of(stream, size) =~= blocks);
    }
}

// ---- what a codec needs ------------------------------------------------------

/// The frames per block a codec needs, `None` for one that takes any.
pub open spec fn block_frames_of(codec: Seq<char>) -> Option<usize> {
    if codec == "opus"@ {
        Some(OPUS_FRAME_FRAMES)
    } else if codec == "flac"@ {
        Some(FLAC_BLOCK_FRAMES)
    } else {
        None
    }
}

/// The smallest send-ahead a codec is safe with where the device states none, in
/// microseconds: the configured floor for Opus, nothing for the others.
pub open spec fn codec_floor_us(codec: Seq<char>, opus_floor_ms: u32) -> int {
    if codec == "opus"@ {
        opus_floor_ms * 1000
    } else {
        0
    }
}

/// The smallest send-ahead a codec is safe with where the device states none.
pub fn min_send_ahead_us(codec: &str, opus_floor_ms: u32) -> (r: i64)
    ensures
        r == codec_floor_us(codec@, opus_floor_ms),
{
    if same(codec, "opus") {
        (opus_floor_ms as i64) * 1000
    } else {
        0
    }
}

/// The lowest floor that can mean anything: one block, since nothing leaves the
/// encoder before a block is complete. Whole milliseconds, 0 without a block size.
pub fn opus_floor_lower_bound_ms(codec: &str) -> (r: u32)
    ensures
        r == match block_frames_of(codec@) {
            Some(f) => f * 1000 / (SAMPLE_RATE as int),
            None => 0,
        },
{
    match Encoder::block_frames(codec) {
        Some(f) => (f * 1000 / (SAMPLE_RATE as usize)) as u32,
        None => 0,
    }
}

/// Samples as microseconds, rounded towards zero.
pub open spec fn samples_to_us(samples: int) -> int {
    if samples >= 0 {
        samples * 1000000 / (SAMPLE_RATE as int)
    } else {
        -((-samples) * 1000000 / (SAMPLE_RATE as int))
    }
}

/// An encoder lookahead in samples as microseconds.
pub fn lookahead_us(lookahead: i32) -> (r: i64)
    ensures
        r == samples_to_us(lookahead as int),
{
    if lookahead >= 0 {
        (lookahead as i64) * 1000000 / (SAMPLE_RATE as i64)
    } else {
        -((-(lookahead as i64)) * 1000000 / (SAMPLE_RATE as i64))
    }
}

/// How long after its timestamp a chunk would be heard: the lookahead of the
/// Opus encoder (`opus_lookahead`, `None` where none could be made), nothing for
/// the other codecs.
pub fn codec_delay_us(codec: &str, opus_lookahead: Option<i32>) -> (r: i64)
    ensures
        r == if codec@ == "opus"@ && opus_lookahead is Some {
            samples_to_us(opus_lookahead->0 as int)
        } else {
            0
        },
{
    if same(codec, "opus") {
        match opus_lookahead {
            Some(n) => lookahead_us(n),
            None => 0,
        }
    } else {
        0
    }
}

// ---- the FLAC stream header --------------------------------------------------

/// The lowest `k` bytes of `n`, highest first.
pub open spec fn be_bytes(n: int, k: nat) -> Seq<u8>
    decreases k,
{
    if k == 0 {
        Seq::empty()
    } else {
        be_bytes(n / 256, (k - 1) as nat).push((n % 256) as u8)
    }
}

/// `k` zero bytes.
pub open spec fn zeros(k: nat) -> Seq<u8> {
    Seq::new(k, |i: int| 0u8)
}

/// The packed field of a STREAMINFO block: 20 bits of sample rate, 3 bits of
/// channels less one, 5 bits of sample depth less one, and 36 bits of total
/// samples, which are 0 for a stream of unknown length.
pub open spec fn packed_format(rate: int, channels: int, depth: int) -> int {
    ((rate * 8 + (channels - 1)) * 32 + (depth - 1)) * 0x10_0000_0000
}

/// `fLaC` and a STREAMINFO block, flagged as the last metadata block: block size
/// least and most, frame sizes unknown, the format, no digest.
pub open spec fn stream_header() -> Seq<u8> {
    seq![0x66u8, 0x4c, 0x61, 0x43] + seq![0x80u8] + be_bytes(34, 3) + be_bytes(
        FLAC_BLOCK_FRAMES as int,
        2,
    ) + be_bytes(FLAC_BLOCK_FRAMES as int, 2) + zeros(6) + be_bytes(
        packed_format(SAMPLE_RATE as int, CHANNELS as int, 16),
        8,
    ) + zeros(16)
}

fn push_be(out: &mut Vec<u8>, n: u64, k: usize)
    ensures
        final(out)@ == old(out)@ + be_bytes(n as int, k as nat),
    decreases k,
{
    if k > 0 {
        push_be(out, n / 256, k - 1);
        out.push((n % 256) as u8);
    }
    assert(out@ =~= old(out)@ + be_bytes(n as int, k as nat));
}

fn push_zeros(out: &mut Vec<u8>, k: usize)
    ensures
        final(out)@ == old(out)@ + zeros(k as nat),
{
    let ghost before = out@;
    let mut i: usize = 0;
    while i < k
        invariant
            i <= k,
            out@ == before + zeros(i as nat),
        decreases k - i,
    {
        out.push(0);
        assert(out@ =~= before + zeros((i + 1) as nat));
        i += 1;
    }
}

/// The header a FLAC stream begins with.
pub fn flac_stream_header() -> (r: Vec<u8>)
    ensures
        r@ == stream_header(),
        r@.len() == 42,
{
    let mut out: Vec<u8> = Vec::with_capacity(42);
    out.push(0x66);
    out.push(0x4c);
    out.push(0x61);
    out.push(0x43);
    out.push(0x80);
    assert(out@ =~= seq![0x66u8, 0x4c, 0x61, 0x43] + seq![0x80u8]);
    push_be(&mut out, 34, 3);
    push_be(&mut out, FLAC_BLOCK_FRAMES as u64, 2);
    push_be(&mut out, FLAC_BLOCK_FRAMES as u64, 2);
    push_zeros(&mut out, 6);
    let rate: u64 = SAMPLE_RATE as u64;
    let channels: u64 = CHANNELS as u64;
    let packed: u64 = ((rate * 8 + (channels - 1)) * 32 + 15) * 0x10_0000_0000;
    push_be(&mut out, packed, 8);
    push_zeros(&mut out, 16);
    proof {
        reveal_with_fuel(be_bytes, 9);
    }
    out
}

// ---- base64 ------------------------------------------------------------------

/// The character of a base64 digit.
pub open spec fn b64_char(d: int) -> char {
    if d < 26 {
        (('A' as u8) + d) as char
    } else if d < 52 {
        (('a' as u8) + (d - 26)) as char
    } else if d < 62 {
        (('0' as u8) + (d - 52)) as char
    } else if d == 62 {
        '+'
    } else {
        '/'
    }
}

/// The byte in place `i`, 0 behind the end.
pub open spec fn byte_or_zero(b: Seq<u8>, i: int) -> int {
    if i < b.len() {
        b[i] as int
    } else {
        0
    }
}

/// The four characters of the first three bytes; where there are fewer, `=` for
/// each character that they do not reach.
pub open spec fn b64_group(b: Seq<u8>) -> Seq<char> {
    let n = byte_or_zero(b, 0) * 65536 + byte_or_zero(b, 1) * 256 + byte_or_zero(b, 2);
    seq![
        b64_char(n / 262144),
        b64_char(n / 4096 % 64),
        if b.len() > 1 {
            b64_char(n / 64 % 64)
        } else {
            '='
        },
        if b.len() > 2 {
            b64_char(n % 64)
        } else {
            '='
        },
    ]
}

/// Standard base64, padded.
pub open spec fn base64(b: Seq<u8>) -> Seq<char>
    decreases b.len(),
{
    if b.len() == 0 {
        Seq::empty()
    } else if b.len() <= 3 {
        b64_group(b)
    } else {
        b64_group(b.take(3)) + base64(b.skip(3))
    }
}

fn b64_digit(d: u32) -> (r: char)
    requires
        d < 64,
    ensures
        r == b64_char(d as int),
{
    if d < 26 {
        (65 + d as u8) as char
    } else if d < 52 {
        (97 + (d - 26) as u8) as char
    } else if d < 62 {
        (48 + (d - 52) as u8) as char
    } else if d == 62 {
        '+'
    } else {
        '/'
    }
}

/// Standard base64, padded.
pub fn base64_encode(bytes: &[u8]) -> (r: String)
    ensures
        r@ == base64(bytes@),
{
    let mut out: String = String::new();
    let mut i: usize = 0;
    assert(bytes@.skip(0) =~= bytes@);
    while i < bytes.len()
        invariant
            i <= bytes@.len(),
            base64(bytes@) == out@ + base64(bytes@.skip(i as int)),
        decreases bytes.len() - i,
    {
        let ghost tail = bytes@.skip(i as int);
        let ghost before = out@;
        let left: usize = bytes.len() - i;
        let b0: u32 = bytes[i] as u32;
        let b1: u32 = if left > 1 {
            bytes[i + 1] as u32
        } else {
            0
        };
        let b2: u32 = if left > 2 {
            bytes[i + 2] as u32
        } else {
            0
        };
        let n: u32 = b0 * 65536 + b1 * 256 + b2;
        out.push(b64_digit(n / 262144));
        out.push(b64_digit(n / 4096 % 64));
        if left > 1 {
            out.push(b64_digit(n / 64 % 64));
        } else {
            out.push('=');
        }
        if left > 2 {
            out.push(b64_digit(n % 64));
        } else {
            out.push('=');
        }
        proof {
            let group = if left <= 3 {
                tail
            } else {
                tail.take(3)
            };
            assert(byte_or_zero(group, 0) == b0);
            assert(byte_or_zero(group, 1) == b1);
            assert(byte_or_zero(group, 2) == b2);
            assert(out@ =~= before + b64_group(group));
            if left > 3 {
                assert(tail.skip(3) =~= bytes@.skip(i + 3));
                assert(before + (b64_group(group) + base64(tail.skip(3))) =~= out@ + base64(
                    bytes@.skip(i + 3),
                ));
            } else {
                assert(bytes@.skip(bytes@.len() as int).len() == 0);
                assert(out@ + base64(bytes@.skip(bytes@.len() as int)) =~= out@);
            }
        }
        if left > 3 {
            i += 3;
        } else {
            i = bytes.len();
        }
    }
    assert(out@ + base64(bytes@.skip(i as int)) =~= out@);
    out
}

/// The digit a base64 character stands for.
pub open spec fn b64_value(c: char) -> int {
    if 'A' <= c <= 'Z' {
        c as int - 'A' as int
    } else if 'a' <= c <= 'z' {
        c as int - 'a' as int + 26
    } else if '0' <= c <= '9' {
        c as int - '0' as int + 52
    } else if c == '+' {
        62
    } else {
        63
    }
}

/// The bytes of the first four characters.
pub open spec fn b64_bytes(s: Seq<char>) -> Seq<u8> {
    let hi = b64_value(s[0]) * 4 + b64_value(s[1]) / 16;
    let mid = b64_value(s[1]) % 16 * 16 + b64_value(s[2]) / 4;
    let lo = b64_value(s[2]) % 4 * 64 + b64_value(s[3]);
    if s[2] == '=' {
        seq![hi as u8]
    } else if s[3] == '=' {
        seq![hi as u8, mid as u8]
    } else {
        seq![hi as u8, mid as u8, lo as u8]
    }
}

/// What padded base64 stands for.
pub open spec fn base64_decoded(s: Seq<char>) -> Seq<u8>
    decreases s.len(),
{
    if s.len() < 4 {
        Seq::empty()
    } else {
        b64_bytes(s) + base64_decoded(s.skip(4))
    }
}

proof fn lemma_b64_digits(d: int)
    requires
        0 <= d < 64,
    ensures
        b64_value(b64_char(d)) == d,
        b64_char(d) != '=',
{
}

proof fn lemma_b64_split(b0: u32, b1: u32, b2: u32)
    requires
        b0 < 256,
        b1 < 256,
        b2 < 256,
    ensures
        ({
            let n = (b0 * 65536 + b1 * 256 + b2) as u32;
            &&& n / 262144 < 64
            &&& b0 == (n / 262144) * 4 + (n / 4096 % 64) / 16
            &&& b1 == (n / 4096 % 64) % 16 * 16 + (n / 64 % 64) / 4
            &&& b2 == (n / 64 % 64) % 4 * 64 + n % 64
        }),
{
    let n = (b0 * 65536 + b1 * 256 + b2) as u32;
    assert(n / 262144 < 64 && b0 == (n / 262144) * 4 + (n / 4096 % 64) / 16 && b1 == (n / 4096 % 64)
        % 16 * 16 + (n / 64 % 64) / 4 && b2 == (n / 64 % 64) % 4 * 64 + n % 64) by (bit_vector)
        requires
            b0 < 256,
            b1 < 256,
            b2 < 256,
            n == (b0 * 65536 + b1 * 256 + b2) as u32,
    ;
}

proof fn lemma_b64_group(b: Seq<u8>)
    requires
        1 <= b.len() <= 3,
    ensures
        b64_bytes(b64_group(b)) == b,
{
    let b0 = byte_or_zero(b, 0);
    let b1 = byte_or_zero(b, 1);
    let b2 = byte_or_zero(b, 2);
    let n = b0 * 65536 + b1 * 256 + b2;
    lemma_b64_split(b0 as u32, b1 as u32, b2 as u32);
    lemma_b64_digits(n / 262144);
    lemma_b64_digits(n / 4096 % 64);
    lemma_b64_digits(n / 64 % 64);
    lemma_b64_digits(n % 64);
    let g = b64_group(b);
    assert(b64_bytes(g) =~= b);
}

/// Base64 is decoded to exactly the bytes that were encoded.
pub proof fn law_base64_round_trip(b: Seq<u8>)
    ensures
        base64_decoded(base64(b)) == b,
    decreases b.len(),
{
    if b.len() == 0 {
        assert(base64_decoded(base64(b)) =~= b);
    } else if b.len() <= 3 {
        lemma_b64_group(b);
        let s = base64(b);
        assert(base64_decoded(s.skip(4)) =~= Seq::<u8>::empty());
        assert(base64_decoded(s) == b64_bytes(s) + base64_decoded(s.skip(4)));
        assert(base64_decoded(s) =~= b);
    } else {
        law_base64_round_trip(b.skip(3));
        lemma_b64_group(b.take(3));
        let s = base64(b);
        let g = b64_group(b.take(3));
        assert(s.len() >= 4);
        assert(s.skip(4) =~= base64(b.skip(3)));
        assert(s[0] == g[0] && s[1] == g[1] && s[2] == g[2] && s[3] == g[3]);
        assert(b64_bytes(s) == b64_bytes(g));
        assert(base64_decoded(s) == b64_bytes(s) + base64_decoded(s.skip(4)));
        assert(b.take(3) + b.skip(3) =~= b);
    }
}

/// The header a stream in `codec` is announced with: that of FLAC in base64,
/// none for the other codecs.
pub fn codec_header_base64(codec: &str) -> (r: Option<String>)
    ensures
        crate::text::opt_view(r) == if codec@ == "flac"@ {
            Some(base64(stream_header()))
        } else {
            None
        },
{
    if same(codec, "flac") {
        let header = flac_stream_header();
        Some(base64_encode(&header))
    } else {
        None
    }
}

// ---- Opus blocks -------------------------------------------------------------

/// The samples of an Opus block, or `None` where the block has not exactly the
/// frames that Opus takes.
pub fn opus_samples(block: &[u8]) -> (r: Option<Vec<i16>>)
    ensures
        r is Some <==> block@.len() / 4 == OPUS_FRAME_FRAMES as int,
        r matches Some(s) ==> sample_values(s@) == samples_of(block@),
{
    if block.len() / BYTES_PER_FRAME != OPUS_FRAME_FRAMES {
        return None;
    }
    Some(samples_from_le(block))
}

/// The packet an Opus encoder wrote to `out`, from the count it returned: a
/// negative count is an error.
pub fn opus_packet(out: &[u8], count: i32) -> (r: Option<&[u8]>)
    requires
        count <= out@.len(),
    ensures
        match r {
            Some(p) => count >= 0 && p@ == out@.take(count as int),
            None => count < 0,
        },
{
    if count < 0 {
        return None;
    }
    let p = vstd::slice::slice_subrange(out, 0, count as usize);
    assert(p@ =~= out@.take(count as int));
    Some(p)
}

// ---- the encoder of one member -----------------------------------------------

/// The encoder of one member of a group.
pub enum Encoder {
    /// The wire payload is the captured audio itself.
    Pcm,
    /// Blocks are handed to an Opus encoder.
    Opus,
    Flac(FlacEncoder),
}

/// What encoding one block comes to.
pub enum Payload {
    /// These bytes go on the wire.
    Bytes(Vec<u8>),
    /// These samples go through the Opus encoder.
    Opus(Vec<i16>),
}

impl Encoder {
    /// The encoder for `codec`, or `None` where it is none of the three.
    pub fn new(codec: &str) -> (r: Option<Self>)
        ensures
            r is Some <==> (codec@ == "pcm"@ || codec@ == "opus"@ || codec@ == "flac"@),
            r matches Some(e) ==> match e {
                Encoder::Pcm => codec@ == "pcm"@,
                Encoder::Opus => codec@ == "opus"@,
                Encoder::Flac(f) => codec@ == "flac"@ && f.wf() && f.number() == 0,
            },
    {
        if same(codec, "pcm") {
            return Some(Encoder::Pcm);
        }
        if same(codec, "opus") {
            return Some(Encoder::Opus);
        }
        if same(codec, "flac") {
            return match FlacEncoder::new() {
                Some(f) => Some(Encoder::Flac(f)),
                None => None,
            };
        }
        None
    }

    /// The frames per block `codec` needs, `None` for one that takes any.
    pub fn block_frames(codec: &str) -> (r: Option<usize>)
        ensures
            r == block_frames_of(codec@),
    {
        if same(codec, "opus") {
            return Some(OPUS_FRAME_FRAMES);
        }
        if same(codec, "flac") {
            return Some(FLAC_BLOCK_FRAMES);
        }
        None
    }

    /// Encodes one block. `None` means that this block is to be dropped.
    pub fn encode(&mut self, pcm: &[u8]) -> (r: Option<Payload>)
        requires
            *old(self) is Flac ==> (*old(self))->Flac_0.wf() && pcm@.len() % 2 == 0 && 4 <= pcm@.len() <= 4 * FLAC_BLOCK_FRAMES,
        ensures
            *old(self) is Pcm ==> *final(self) is Pcm && r is Some && r->0 is Bytes
                && r->0->Bytes_0@ == pcm@,
            *old(self) is Opus ==> *final(self) is Opus && (r is Some <==> pcm@.len() / 4
                == OPUS_FRAME_FRAMES as int) && (r matches Some(p) ==> p is Opus && sample_values(
                p->Opus_0@,
            ) == samples_of(pcm@)),
            *old(self) is Flac ==> *final(self) is Flac && (*final(self))->Flac_0.wf() && (r is Some <==> (*old(
                self))->Flac_0.number() < 0x8000_0000) && (r matches Some(p) ==> p is Bytes
                && is_frame(p->Bytes_0@, (*old(self))->Flac_0.number(), stereo_samples(pcm@))
                && (*final(self))->Flac_0.number() == next_frame_number(
                (*old(self))->Flac_0.number(),
            )) && (r is None ==> (*final(self))->Flac_0.number() == (*old(
                self))->Flac_0.number()),
    {
        match self {
            Encoder::Pcm => Some(Payload::Bytes(vstd::slice::slice_to_vec(pcm))),
            Encoder::Opus => match opus_samples(pcm) {
                Some(s) => Some(Payload::Opus(s)),
                None => None,
            },
            Encoder::Flac(f) => match f.encode(pcm) {
                Some(b) => Some(Payload::Bytes(b)),
                None => None,
            },
        }
    }
}

/// Every block size lies inside the bounds of a wire chunk: at least 15 and at
/// most 150 milliseconds.
pub proof fn law_block_sizes_fit_a_chunk(codec: Seq<char>)
    ensures
        block_frames_of(codec) matches Some(f) ==> 15 * SAMPLE_RATE <= f * 1000 <= 150
            * SAMPLE_RATE,
{
}

/// A row of samples lasts as long as 48 of them last a millisecond, in whole
/// microseconds, and one that counts backwards as long the other way.
pub proof fn law_samples_last_as_long_as_they_are(n: int)
    requires
        n >= 0,
    ensures
        samples_to_us(n) * 48 <= n * 1000 < (samples_to_us(n) + 1) * 48,
        samples_to_us(-n) == -samples_to_us(n),
{
}

} // verus!
