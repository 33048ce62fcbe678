//! The FLAC encoder of one stream, on top of the `flacenc` crate.
//!
//! The crate's values are opaque here. What is claimed of them stands in the
//! contracts of the functions below that hand them through: what a frame buffer
//! holds, what a frame stands for, and which bytes a frame is written as.

use crate::bytes::samples_of;
use flacenc::component::BitRepr;
use flacenc::config::Encoder as FlacConfig;
use flacenc::error::Verify;
use flacenc::source::Fill;
use vstd::prelude::*;

verus! {

/// The rate of the capture bus, in Hz.
pub const SAMPLE_RATE: u32 = 48000;

/// The channels of the capture bus.
pub const CHANNELS: u16 = 2;

/// The frames (samples per channel) of one FLAC block: 21.3 ms.
pub const FLAC_BLOCK_FRAMES: usize = 1024;

#[verifier::external_type_specification]
#[verifier::external_body]
#[verifier::reject_recursive_types(T)]
pub struct ExVerified<T>(flacenc::error::Verified<T>);

#[verifier::external_type_specification]
#[verifier::external_body]
pub struct ExFlacConfig(FlacConfig);

#[verifier::external_type_specification]
#[verifier::external_body]
pub struct ExStreamInfo(flacenc::component::StreamInfo);

#[verifier::external_type_specification]
#[verifier::external_body]
pub struct ExFrameBuf(flacenc::source::FrameBuf);

#[verifier::external_type_specification]
#[verifier::external_body]
pub struct ExFrame(flacenc::component::Frame);

#[verifier::external_type_specification]
#[verifier::external_body]
#[verifier::reject_recursive_types(S)]
pub struct ExMemSink<S>(flacenc::bitsink::MemSink<S>);

/// The interleaved samples a frame buffer was last filled with.
pub uninterp spec fn buffered(fb: flacenc::source::FrameBuf) -> Seq<int>;

/// The channels of a frame buffer and the frames that it has room for.
pub uninterp spec fn shape(fb: flacenc::source::FrameBuf) -> (int, int);

/// The rate, the channels and the bits per sample that a stream is declared with.
pub uninterp spec fn format_of(info: flacenc::component::StreamInfo) -> (int, int, int);

/// What a frame stands for: its number, its interleaved samples, and the format of
/// the stream that it belongs to.
pub uninterp spec fn framed(f: flacenc::component::Frame) -> (int, Seq<int>, (int, int, int));

/// The bytes that a frame is written as.
pub uninterp spec fn frame_bytes(f: flacenc::component::Frame) -> Seq<u8>;

/// The bytes that a sink holds.
pub uninterp spec fn sink_bytes(s: flacenc::bitsink::MemSink<u8>) -> Seq<u8>;

/// The format of the capture bus.
pub open spec fn bus_format() -> (int, int, int) {
    (SAMPLE_RATE as int, CHANNELS as int, 16)
}

/// The samples of the whole stereo frames in a block.
pub open spec fn stereo_samples(block: Seq<u8>) -> Seq<int> {
    samples_of(block.take((block.len() / 4 * 4) as int))
}

/// `flacenc::error::Verify::into_verified` on the default configuration: the
/// defaults are inside all the ranges that it checks, so it accepts them.
#[verifier::external_body]
fn default_config() -> (r: Option<flacenc::error::Verified<FlacConfig>>)
    ensures
        r is Some,
{
    FlacConfig::default().into_verified().ok()
}

/// `flacenc::component::StreamInfo::new`: declares a stream with this rate, these
/// channels and these bits per sample. It takes each of them in a narrower type
/// before it looks at them, so they are bounded here by the largest it accepts.
/// Within these bounds it accepts at least one channel, and at least eight bits in
/// steps of four, or one more than that.
#[verifier::external_body]
fn stream_info(rate: usize, channels: usize, bits: usize) -> (r: Option<
    flacenc::component::StreamInfo,
>)
    requires
        rate <= 96000,
        channels <= 8,
        bits <= 24,
    ensures
        r is Some <==> (channels >= 1 && bits >= 8 && (bits % 4 == 0 || bits % 4 == 1)),
        r matches Some(i) ==> format_of(i) == (rate as int, channels as int, bits as int),
{
    flacenc::component::StreamInfo::new(rate, channels, bits).ok()
}

/// `flacenc::source::FrameBuf::with_size`: accepts one to eight channels and a
/// block of 32 to 32767 frames.
#[verifier::external_body]
fn frame_buffer(channels: usize, size: usize) -> (r: Option<flacenc::source::FrameBuf>)
    ensures
        r is Some <==> (1 <= channels <= 8 && 32 <= size <= 32767),
        r matches Some(b) ==> shape(b) == (channels as int, size as int),
{
    flacenc::source::FrameBuf::with_size(channels, size).ok()
}

/// `flacenc::bitsink::MemSink::new`: an empty sink.
#[verifier::external_body]
fn empty_sink() -> (r: flacenc::bitsink::MemSink<u8>)
    ensures
        sink_bytes(r) == Seq::<u8>::empty(),
{
    flacenc::bitsink::ByteSink::new()
}

/// `flacenc::source::Fill::fill_le_bytes` with two bytes per sample, on a stereo
/// buffer: loads the whole frames among the samples. It panics on an odd number of
/// bytes, and a buffer that was given more than its size cannot be encoded. It
/// reports no error and leaves the shape of the buffer.
#[verifier::external_body]
fn fill_s16le(fb: &mut flacenc::source::FrameBuf, block: &[u8]) -> (r: bool)
    requires
        shape(*old(fb)).0 == 2,
        block@.len() % 2 == 0,
        block@.len() / 4 <= shape(*old(fb)).1,
    ensures
        r,
        shape(*final(fb)) == shape(*old(fb)),
        buffered(*final(fb)) == stereo_samples(block@),
{
    fb.fill_le_bytes(block, 2).is_ok()
}

/// `flacenc::encode_fixed_size_frame` on a stream in the format of the capture bus,
/// which a frame's header can say in full: encodes the samples in the buffer as the
/// frame with this number. It fails where the number does not fit in 31 bits; 16
/// bits hold every sample that was loaded from two bytes. An empty buffer, or one
/// with other channels than the stream, makes it panic. Which of the possible
/// encodings it picks rests on the configuration and on floating-point estimates,
/// and is left open.
#[verifier::external_body]
fn encode_frame(
    config: &flacenc::error::Verified<FlacConfig>,
    fb: &flacenc::source::FrameBuf,
    frame_number: usize,
    info: &flacenc::component::StreamInfo,
) -> (r: Option<flacenc::component::Frame>)
    requires
        buffered(*fb).len() > 0,
        shape(*fb).0 == CHANNELS,
        format_of(*info) == bus_format(),
        forall|i: int| 0 <= i < buffered(*fb).len() ==> -32768 <= #[trigger] buffered(*fb)[i] <= 32767,
    ensures
        r is Some <==> frame_number < 0x8000_0000,
        r matches Some(f) ==> framed(f) == (frame_number as int, buffered(*fb), format_of(
            *info,
        )),
{
    flacenc::encode_fixed_size_frame(config, fb, frame_number, info).ok()
}

/// `flacenc::bitsink::MemSink::clear`: drops what the sink holds.
#[verifier::external_body]
fn clear_sink(sink: &mut flacenc::bitsink::MemSink<u8>)
    ensures
        sink_bytes(*final(sink)) == Seq::<u8>::empty(),
{
    sink.clear();
}

/// `flacenc::component::BitRepr::write` on a frame that `encode_fixed_size_frame`
/// made: appends the bytes of the frame to the sink. They begin with the sync code
/// of a stream of fixed block size. A memory sink takes every write, and the two
/// checks on the frame itself, at most eight channels and a number that can be
/// written, hold of a stereo frame whose number has 31 bits.
#[verifier::external_body]
fn write_frame(f: &flacenc::component::Frame, sink: &mut flacenc::bitsink::MemSink<u8>) -> (r: bool)
    requires
        sink_bytes(*old(sink)) == Seq::<u8>::empty(),
        framed(*f).0 < 0x8000_0000,
        framed(*f).2 == bus_format(),
    ensures
        r,
        sink_bytes(*final(sink)) == frame_bytes(*f),
        sink_bytes(*final(sink)).len() >= 2 && sink_bytes(*final(sink))[0] == 0xff && sink_bytes(
            *final(sink),
        )[1] == 0xf8,
{
    f.write(sink).is_ok()
}

/// `flacenc::bitsink::MemSink::as_slice`: the bytes the sink holds.
#[verifier::external_body]
fn sink_slice(sink: &flacenc::bitsink::MemSink<u8>) -> (r: &[u8])
    ensures
        r@ == sink_bytes(*sink),
{
    sink.as_slice()
}

/// A FLAC encoder: one frame per block, numbered in a row.
pub struct FlacEncoder {
    config: flacenc::error::Verified<FlacConfig>,
    stream_info: flacenc::component::StreamInfo,
    framebuf: flacenc::source::FrameBuf,
    sink: flacenc::bitsink::MemSink<u8>,
    frame_number: usize,
}

/// The number of the frame after this one: the counter has 31 bits.
pub open spec fn next_frame_number(n: int) -> int {
    (n + 1) % 0x8000_0000
}

/// `bytes` are those of a frame of the capture bus with this number and these
/// samples.
pub open spec fn is_frame(bytes: Seq<u8>, number: int, samples: Seq<int>) -> bool {
    exists|f: flacenc::component::Frame|
        #[trigger] framed(f) == (number, samples, bus_format()) && bytes == frame_bytes(f)
}

impl FlacEncoder {
    /// The number of the next frame.
    pub closed spec fn number(self) -> int {
        self.frame_number as int
    }

    /// The encoder is set up for blocks of the capture bus.
    pub closed spec fn wf(self) -> bool {
        &&& shape(self.framebuf) == (CHANNELS as int, FLAC_BLOCK_FRAMES as int)
        &&& format_of(self.stream_info) == bus_format()
    }

    /// An encoder for 48 kHz stereo in blocks of [`FLAC_BLOCK_FRAMES`] frames.
    pub fn new() -> (r: Option<Self>)
        ensures
            r is Some,
            r->0.wf(),
            r->0.number() == 0,
    {
        let config = match default_config() {
            Some(c) => c,
            None => {
                return None;
            },
        };
        let stream_info = match stream_info(SAMPLE_RATE as usize, CHANNELS as usize, 16) {
            Some(i) => i,
            None => {
                return None;
            },
        };
        let framebuf = match frame_buffer(CHANNELS as usize, FLAC_BLOCK_FRAMES) {
            Some(b) => b,
            None => {
                return None;
            },
        };
        Some(
            FlacEncoder { config, stream_info, framebuf, sink: empty_sink(), frame_number: 0 },
        )
    }

    /// The number of the next frame.
    pub fn frame_number(&self) -> (r: usize)
        ensures
            r == self.number(),
    {
        self.frame_number
    }

    /// Encodes one block of interleaved 16-bit samples as the next frame, which
    /// succeeds as long as its number has 31 bits. Frame numbers advance by one for
    /// each frame that is handed out, and start again where the bits end.
    pub fn encode(&mut self, block: &[u8]) -> (r: Option<Vec<u8>>)
        requires
            old(self).wf(),
            block@.len() % 2 == 0,
            4 <= block@.len() <= 4 * FLAC_BLOCK_FRAMES,
        ensures
            final(self).wf(),
            r is Some <==> old(self).number() < 0x8000_0000,
            match r {
                Some(p) => is_frame(
                    p@,
                    old(self).number(),
                    stereo_samples(block@),
                ) && p@.len() >= 2 && p@[0] == 0xff && p@[1] == 0xf8 && final(self).number()
                    == next_frame_number(old(self).number()),
                None => final(self).number() == old(self).number(),
            },
    {
        let ghost samples = stereo_samples(block@);
        if !fill_s16le(&mut self.framebuf, block) {
            return None;
        }
        proof {
            assert(samples.len() >= 2);
        }
        let frame = match encode_frame(
            &self.config,
            &self.framebuf,
            self.frame_number,
            &self.stream_info,
        ) {
            Some(f) => f,
            None => {
                return None;
            },
        };
        clear_sink(&mut self.sink);
        if !write_frame(&frame, &mut self.sink) {
            return None;
        }
        let n: usize = self.frame_number;
        assert((n + 1) as usize & 0x7fff_ffff == (n + 1) % 0x8000_0000) by (bit_vector)
            requires
                n < 0x8000_0000,
        ;
        self.frame_number = (n + 1) & 0x7fff_ffff;
        let bytes = sink_slice(&self.sink);
        assert(framed(frame) == (n as int, samples, bus_format()));
        let out = vstd::slice::slice_to_vec(bytes);
        Some(out)
    }
}

/// The samples of a block are those of its whole stereo frames, two for each, and a
/// frame that is cut off is left out.
pub proof fn law_whole_frames_are_encoded(block: Seq<u8>, i: int)
    requires
        0 <= i < block.len() / 4,
    ensures
        stereo_samples(block).len() == block.len() / 4 * 2,
        stereo_samples(block)[2 * i] == crate::bytes::sample(block[4 * i], block[4 * i + 1]),
        stereo_samples(block)[2 * i + 1] == crate::bytes::sample(
            block[4 * i + 2],
            block[4 * i + 3],
        ),
{
}

/// Frames are numbered in a row, and from 0 again once the 31 bits of a number are used
/// up; the stream is 48 kHz stereo with 16 bits.
pub proof fn law_frames_are_numbered_in_a_row(n: int)
    requires
        0 <= n < 0x8000_0000,
    ensures
        n + 1 < 0x8000_0000 ==> next_frame_number(n) == n + 1,
        n + 1 == 0x8000_0000 ==> next_frame_number(n) == 0,
        bus_format() == (48_000int, 2int, 16int),
{
}

} // verus!
