//! WAV clips: reading a 16-bit PCM file, writing one, and playing one in an
//! endless loop.

use crate::bytes::{le16, le16_bytes, le32, le32_bytes, lemma_le_round_trip, push_le16, push_le32, read_le16, read_le32};
use crate::text::{decimal, push_decimal};
use vstd::prelude::*;

verus! {

/// A 16-bit PCM clip.
pub struct Wav {
    pub rate: u32,
    pub channels: u16,
    /// Interleaved 16-bit little-endian samples.
    pub pcm: Vec<u8>,
}

/// The fields of a format chunk.
#[derive(Clone, Copy, Debug, PartialEq, Eq, Structural)]
pub struct WavFormat {
    pub tag: u16,
    pub channels: u16,
    pub rate: u32,
    pub bits: u16,
}

pub open spec fn id_at(b: Seq<u8>, pos: int, c0: u8, c1: u8, c2: u8, c3: u8) -> bool {
    b[pos] == c0 && b[pos + 1] == c1 && b[pos + 2] == c2 && b[pos + 3] == c3
}

/// `RIFF` and `WAVE` in their places.
pub open spec fn is_riff_wave(b: Seq<u8>) -> bool {
    b.len() >= 12 && id_at(b, 0, 0x52, 0x49, 0x46, 0x46) && id_at(b, 8, 0x57, 0x41, 0x56, 0x45)
}

/// The size a chunk states.
pub open spec fn chunk_size(b: Seq<u8>, pos: int) -> int {
    le32(b[pos + 4], b[pos + 5], b[pos + 6], b[pos + 7]) as int
}

/// The end of a chunk's body, cut off at the end of the file.
pub open spec fn body_end(b: Seq<u8>, pos: int) -> int {
    if pos + 8 + chunk_size(b, pos) <= b.len() {
        pos + 8 + chunk_size(b, pos)
    } else {
        b.len() as int
    }
}

/// Where the next chunk begins: chunks are padded to an even size.
pub open spec fn next_chunk(b: Seq<u8>, pos: int) -> int {
    pos + 8 + chunk_size(b, pos) + chunk_size(b, pos) % 2
}

/// The last format chunk at or behind `pos` that is long enough.
pub open spec fn format_from(b: Seq<u8>, pos: int) -> Option<WavFormat>
    decreases
            (if pos < b.len() {
                b.len() - pos
            } else {
                0
            }),
{
    if 0 <= pos && pos + 8 <= b.len() {
        let rest = format_from(b, next_chunk(b, pos));
        if rest is Some {
            rest
        } else if id_at(b, pos, 0x66, 0x6d, 0x74, 0x20) && body_end(b, pos) - (pos + 8) >= 16 {
            let p = pos + 8;
            Some(
                WavFormat {
                    tag: le16(b[p], b[p + 1]),
                    channels: le16(b[p + 2], b[p + 3]),
                    rate: le32(b[p + 4], b[p + 5], b[p + 6], b[p + 7]),
                    bits: le16(b[p + 14], b[p + 15]),
                },
            )
        } else {
            None
        }
    } else {
        None
    }
}

/// The body of the last data chunk at or behind `pos`.
pub open spec fn data_from(b: Seq<u8>, pos: int) -> Option<Seq<u8>>
    decreases
            (if pos < b.len() {
                b.len() - pos
            } else {
                0
            }),
{
    if 0 <= pos && pos + 8 <= b.len() {
        let rest = data_from(b, next_chunk(b, pos));
        if rest is Some {
            rest
        } else if id_at(b, pos, 0x64, 0x61, 0x74, 0x61) {
            Some(b.subrange(pos + 8, body_end(b, pos)))
        } else {
            None
        }
    } else {
        None
    }
}

/// Why a file is no clip this daemon plays, `None` where it is one.
pub open spec fn wav_error(b: Seq<u8>) -> Option<Seq<char>> {
    if !is_riff_wave(b) {
        Some("not a RIFF/WAVE file"@)
    } else if format_from(b, 12) is None {
        Some("no fmt chunk"@)
    } else if data_from(b, 12) is None {
        Some("no data chunk"@)
    } else if format_from(b, 12)->0.tag != 1 {
        Some("unsupported WAV format tag "@ + decimal(format_from(b, 12)->0.tag as int)
            + " (only PCM)"@)
    } else if format_from(b, 12)->0.bits != 16 {
        Some("unsupported WAV bit depth "@ + decimal(format_from(b, 12)->0.bits as int)
            + " (only 16-bit)"@)
    } else if format_from(b, 12)->0.channels == 0 {
        Some("WAV has zero channels"@)
    } else {
        None
    }
}

fn id_is(b: &[u8], pos: usize, c0: u8, c1: u8, c2: u8, c3: u8) -> (r: bool)
    requires
        pos + 4 <= b@.len(),
    ensures
        r == id_at(b@, pos as int, c0, c1, c2, c3),
{
    b[pos] == c0 && b[pos + 1] == c1 && b[pos + 2] == c2 && b[pos + 3] == c3
}

fn copy_range(b: &[u8], from: usize, to: usize) -> (r: Vec<u8>)
    requires
        from <= to <= b@.len(),
    ensures
        r@ == b@.subrange(from as int, to as int),
{
    let mut out: Vec<u8> = Vec::new();
    let mut i: usize = from;
    while i < to
        invariant
            from <= i <= to <= b@.len(),
            out@ == b@.subrange(from as int, i as int),
        decreases to - i,
    {
        out.push(b[i]);
        i += 1;
    }
    out
}

/// Reads a PCM WAV. Chunks other than the format and the data are passed over;
/// where one of those two occurs more than once the last one counts.
pub fn parse_wav(bytes: &[u8]) -> (r: Result<Wav, String>)
    ensures
        match r {
            Ok(w) => wav_error(bytes@) is None && w.rate == format_from(bytes@, 12)->0.rate
                && w.channels == format_from(bytes@, 12)->0.channels && w.pcm@ == data_from(
                bytes@,
                12,
            )->0,
            Err(e) => wav_error(bytes@) == Some(e@),
        },
{
    if bytes.len() < 12 || !id_is(bytes, 0, 0x52, 0x49, 0x46, 0x46) || !id_is(
        bytes,
        8,
        0x57,
        0x41,
        0x56,
        0x45,
    ) {
        return Err(String::from_str("not a RIFF/WAVE file"));
    }
    let ghost b = bytes@;
    let len: usize = bytes.len();
    let mut pos: usize = 12;
    let mut fmt: Option<WavFormat> = None;
    let mut data: Option<Vec<u8>> = None;
    while pos <= len - 8
        invariant
            b == bytes@,
            len == b.len(),
            len >= 12,
            format_from(b, 12) == if format_from(b, pos as int) is Some {
                format_from(b, pos as int)
            } else {
                fmt
            },
            data_from(b, 12) == if data_from(b, pos as int) is Some {
                data_from(b, pos as int)
            } else {
                match data {
                    Some(d) => Some(d@),
                    None => None,
                }
            },
        decreases
                (if pos < len {
                    len - pos
                } else {
                    0
                }),
    {
        let size: usize = read_le32(
            bytes[pos + 4],
            bytes[pos + 5],
            bytes[pos + 6],
            bytes[pos + 7],
        ) as usize;
        let body_start: usize = pos + 8;
        let stated_end: usize = body_start.saturating_add(size);
        let end: usize = if stated_end <= len {
            stated_end
        } else {
            len
        };
        assert(end == body_end(b, pos as int));
        if id_is(bytes, pos, 0x66, 0x6d, 0x74, 0x20) && end - body_start >= 16 {
            fmt = Some(
                WavFormat {
                    tag: read_le16(bytes[body_start], bytes[body_start + 1]),
                    channels: read_le16(bytes[body_start + 2], bytes[body_start + 3]),
                    rate: read_le32(
                        bytes[body_start + 4],
                        bytes[body_start + 5],
                        bytes[body_start + 6],
                        bytes[body_start + 7],
                    ),
                    bits: read_le16(bytes[body_start + 14], bytes[body_start + 15]),
                },
            );
        } else if id_is(bytes, pos, 0x64, 0x61, 0x74, 0x61) {
            data = Some(copy_range(bytes, body_start, end));
        }
        let next: usize = stated_end.saturating_add(size % 2);
        proof {
            if next_chunk(b, pos as int) > usize::MAX {
                assert(format_from(b, next_chunk(b, pos as int)) is None);
                assert(data_from(b, next_chunk(b, pos as int)) is None);
                assert(format_from(b, next as int) is None);
                assert(data_from(b, next as int) is None);
            } else {
                assert(next == next_chunk(b, pos as int));
            }
        }
        pos = next;
    }
    let f = match fmt {
        Some(f) => f,
        None => {
            return Err(String::from_str("no fmt chunk"));
        },
    };
    let pcm = match data {
        Some(d) => d,
        None => {
            return Err(String::from_str("no data chunk"));
        },
    };
    if f.tag != 1 {
        let mut m = String::from_str("unsupported WAV format tag ");
        push_decimal(&mut m, f.tag as u64);
        m.append(" (only PCM)");
        return Err(m);
    }
    if f.bits != 16 {
        let mut m = String::from_str("unsupported WAV bit depth ");
        push_decimal(&mut m, f.bits as u64);
        m.append(" (only 16-bit)");
        return Err(m);
    }
    if f.channels == 0 {
        return Err(String::from_str("WAV has zero channels"));
    }
    Ok(Wav { rate: f.rate, channels: f.channels, pcm })
}

// ---- writing -----------------------------------------------------------------

/// The bytes of a WAV file with one format and one data chunk.
pub open spec fn wav_file(pcm: Seq<u8>, rate: u32, bits: u16, channels: u16) -> Seq<u8> {
    let frame = channels as int * bits as int / 8;
    seq![0x52u8, 0x49, 0x46, 0x46] + le32_bytes((36 + pcm.len()) as u32) + seq![
        0x57u8,
        0x41,
        0x56,
        0x45,
        0x66,
        0x6d,
        0x74,
        0x20,
    ] + le32_bytes(16) + le16_bytes(1) + le16_bytes(channels) + le32_bytes(rate) + le32_bytes(
        (rate * frame % 0x1_0000_0000) as u32,
    ) + le16_bytes((frame % 0x1_0000) as u16) + le16_bytes(bits) + seq![0x64u8, 0x61, 0x74, 0x61]
        + le32_bytes(pcm.len() as u32) + pcm
}

/// Writes interleaved PCM as a WAV file.
pub fn build_wav(pcm: &[u8], rate: u32, bits: u16, channels: u16) -> (r: Vec<u8>)
    requires
        pcm@.len() <= u32::MAX - 36,
    ensures
        r@ == wav_file(pcm@, rate, bits, channels),
{
    let n: u32 = pcm.len() as u32;
    assert(channels as int * bits as int <= 65535 * 65535) by (nonlinear_arith);
    let frame: u64 = (channels as u64) * (bits as u64) / 8;
    assert(rate as int * frame as int <= 0xffff_ffff * 0x1fff_ffff) by (nonlinear_arith)
        requires
            frame <= 0x1fff_ffff,
            0 <= rate <= 0xffff_ffff,
    ;
    let byte_rate: u64 = (rate as u64) * frame % 0x1_0000_0000;
    let mut out: Vec<u8> = vec![0x52u8, 0x49u8, 0x46u8, 0x46u8];
    push_le32(&mut out, 36 + n);
    out.push(0x57);
    out.push(0x41);
    out.push(0x56);
    out.push(0x45);
    out.push(0x66);
    out.push(0x6d);
    out.push(0x74);
    out.push(0x20);
    push_le32(&mut out, 16);
    push_le16(&mut out, 1);
    push_le16(&mut out, channels);
    push_le32(&mut out, rate);
    push_le32(&mut out, byte_rate as u32);
    push_le16(&mut out, (frame % 0x1_0000) as u16);
    push_le16(&mut out, bits);
    out.push(0x64);
    out.push(0x61);
    out.push(0x74);
    out.push(0x61);
    push_le32(&mut out, n);
    let ghost head = out@;
    let mut i: usize = 0;
    while i < pcm.len()
        invariant
            i <= pcm@.len(),
            out@ == head + pcm@.take(i as int),
        decreases pcm.len() - i,
    {
        out.push(pcm[i]);
        assert(out@ =~= head + pcm@.take(i + 1));
        i += 1;
    }
    assert(out@ =~= wav_file(pcm@, rate, bits, channels));
    out
}

/// A written clip reads back as what was written: 16-bit PCM of any rate, any
/// channel count but zero and any length that a file can state.
pub proof fn law_written_wav_reads_back(pcm: Seq<u8>, rate: u32, channels: u16)
    requires
        channels > 0,
        pcm.len() <= u32::MAX - 36,
    ensures
        wav_error(wav_file(pcm, rate, 16, channels)) is None,
        format_from(wav_file(pcm, rate, 16, channels), 12)->0.rate == rate,
        format_from(wav_file(pcm, rate, 16, channels), 12)->0.channels == channels,
        data_from(wav_file(pcm, rate, 16, channels), 12) == Some(pcm),
{
    lemma_wav_chunks(pcm, rate, 16, channels);
}

/// A clip written with another bit depth is refused.
pub proof fn law_other_depths_are_refused(pcm: Seq<u8>, rate: u32, bits: u16, channels: u16)
    requires
        bits != 16,
        pcm.len() <= u32::MAX - 36,
    ensures
        wav_error(wav_file(pcm, rate, bits, channels)) == Some(
            "unsupported WAV bit depth "@ + decimal(bits as int) + " (only 16-bit)"@,
        ),
{
    lemma_wav_chunks(pcm, rate, bits, channels);
}

proof fn lemma_wav_chunks(pcm: Seq<u8>, rate: u32, bits: u16, channels: u16)
    requires
        pcm.len() <= u32::MAX - 36,
    ensures
        is_riff_wave(wav_file(pcm, rate, bits, channels)),
        format_from(wav_file(pcm, rate, bits, channels), 12) == Some(
            WavFormat { tag: 1, channels, rate, bits },
        ),
        data_from(wav_file(pcm, rate, bits, channels), 12) == Some(pcm),
{
    let b = wav_file(pcm, rate, bits, channels);
    lemma_le_round_trip(1, 16);
    lemma_le_round_trip(channels, rate);
    lemma_le_round_trip(bits, pcm.len() as u32);
    assert(b.len() == 44 + pcm.len());
    assert(chunk_size(b, 12) == 16);
    assert(next_chunk(b, 12) == 36);
    assert(chunk_size(b, 36) == pcm.len());
    assert(next_chunk(b, 36) >= b.len());
    assert(b.subrange(44, b.len() as int) =~= pcm);
    assert(format_from(b, next_chunk(b, 36)) is None);
    assert(data_from(b, next_chunk(b, 36)) is None);
    assert(format_from(b, 36) is None);
    assert(data_from(b, 36) == Some(pcm));
}

// ---- looped playback ---------------------------------------------------------

/// The part of a buffer of `len` bytes that holds whole frames.
pub open spec fn whole_frames(len: int, stride: int) -> int {
    len / stride * stride
}

/// Where the clip is read from next: the start again once its end is reached.
pub open spec fn loop_start(cursor: int, clip_len: int) -> int {
    if cursor >= clip_len {
        0
    } else {
        cursor
    }
}

/// Fills the whole frames of `out` with the clip, beginning at `cursor` and
/// going round without a gap at its end. Gives back how many bytes were written
/// and where to go on.
pub fn fill_looped(out: &mut [u8], pcm: &[u8], cursor: usize, stride: usize) -> (r: (usize, usize))
    requires
        stride > 0,
        pcm@.len() > 0,
    ensures
        final(out)@.len() == old(out)@.len(),
        r.0 == whole_frames(old(out)@.len() as int, stride as int),
        r.0 <= old(out)@.len(),
        forall|i: int|
            0 <= i < r.0 ==> #[trigger] final(out)@[i] == pcm@[(loop_start(
                cursor as int,
                pcm@.len() as int,
            ) + i) % (pcm@.len() as int)],
        forall|i: int| r.0 <= i < old(out)@.len() ==> #[trigger] final(out)@[i] == old(out)@[i],
        r.0 == 0 ==> r.1 == cursor,
        r.0 > 0 ==> r.1 == (loop_start(cursor as int, pcm@.len() as int) + r.0 - 1)
            % (pcm@.len() as int) + 1,
{
    let ghost n = pcm@.len() as int;
    let ghost start = loop_start(cursor as int, n);
    let ghost before = out@;
    proof {
        assert(0 <= before.len() as int / stride as int * stride as int <= before.len())
            by (nonlinear_arith)
            requires
                stride > 0,
                before.len() >= 0,
        ;
    }
    let cap: usize = out.len() / stride * stride;
    let mut cur: usize = cursor;
    let mut written: usize = 0;
    while written < cap
        invariant
            n == pcm@.len(),
            n > 0,
            start == loop_start(cursor as int, n),
            0 <= start < n,
            cap <= before.len(),
            out@.len() == before.len(),
            written <= cap,
            written == 0 ==> cur == cursor,
            written > 0 ==> cur == (start + written - 1) % n + 1,
            forall|i: int| 0 <= i < written ==> #[trigger] out@[i] == pcm@[(start + i) % n],
            forall|i: int| written <= i < before.len() ==> #[trigger] out@[i] == before[i],
        decreases cap - written,
    {
        if cur >= pcm.len() {
            cur = 0;
        }
        proof {
            if written == 0 {
                vstd::arithmetic::div_mod::lemma_small_mod(start as nat, n as nat);
            } else {
                let q = (start + written - 1) % n;
                vstd::arithmetic::div_mod::lemma_fundamental_div_mod(start + written - 1, n);
                let d = (start + written - 1) / n;
                if q + 1 == n {
                    assert(start + written == n * (d + 1)) by (nonlinear_arith)
                        requires
                            start + written - 1 == n * d + q,
                            q + 1 == n,
                    ;
                    vstd::arithmetic::div_mod::lemma_mod_multiples_basic(d + 1, n);
                    assert(n * (d + 1) == (d + 1) * n) by (nonlinear_arith);
                } else {
                    vstd::arithmetic::div_mod::lemma_fundamental_div_mod_converse(
                        start + written,
                        n,
                        d,
                        q + 1,
                    );
                }
            }
            assert(cur == (start + written) % n);
        }
        out[written] = pcm[cur];
        written += 1;
        cur += 1;
    }
    (written, cur)
}

/// Whether a clip has at least one frame to play.
pub fn has_a_frame(wav: &Wav) -> (r: bool)
    ensures
        r == (wav.pcm@.len() >= 2 * wav.channels),
{
    wav.pcm.len() >= (wav.channels as usize) * 2
}

/// A chunk that is neither a format nor data is passed over with its padding byte,
/// whatever is in it.
pub proof fn law_other_chunks_are_passed_over(b: Seq<u8>, pos: int)
    requires
        0 <= pos,
        pos + 8 <= b.len(),
    ensures
        ({
            let n = le32(b[pos + 4], b[pos + 5], b[pos + 6], b[pos + 7]) as int;
            let next = pos + 8 + n + n % 2;
            &&& !(b[pos] == 0x66 && b[pos + 1] == 0x6d && b[pos + 2] == 0x74 && b[pos + 3] == 0x20)
                ==> format_from(b, pos) == format_from(b, next)
            &&& !(b[pos] == 0x64 && b[pos + 1] == 0x61 && b[pos + 2] == 0x74 && b[pos + 3] == 0x61)
                ==> data_from(b, pos) == data_from(b, next)
            &&& data_from(b, next) is Some ==> data_from(b, pos) == data_from(b, next)
            &&& format_from(b, next) is Some ==> format_from(b, pos) == format_from(b, next)
        }),
{
}

/// The data of a clip is the body of its data chunk: as many bytes as the chunk
/// states, or as many as there are left where the file is shorter.
pub proof fn law_data_is_what_the_chunk_holds(b: Seq<u8>, pos: int)
    requires
        0 <= pos,
        pos + 8 <= b.len(),
        b[pos] == 0x64,
        b[pos + 1] == 0x61,
        b[pos + 2] == 0x74,
        b[pos + 3] == 0x61,
    ensures
        ({
            let n = le32(b[pos + 4], b[pos + 5], b[pos + 6], b[pos + 7]) as int;
            data_from(b, pos + 8 + n + n % 2) is None ==> {
                &&& data_from(b, pos) is Some
                &&& pos + 8 + n <= b.len() ==> data_from(b, pos) == Some(
                    b.subrange(pos + 8, pos + 8 + n),
                )
                &&& pos + 8 + n > b.len() ==> data_from(b, pos) == Some(
                    b.subrange(pos + 8, b.len() as int),
                )
            }
        }),
{
}

/// A clip is played exactly where it is a RIFF file of a wave with a format and data,
/// not compressed, of 16 bits and with some channel.
pub proof fn law_only_plain_clips_are_played(b: Seq<u8>)
    ensures
        wav_error(b) is None <==> {
            &&& b.len() >= 12
            &&& b[0] == 0x52 && b[1] == 0x49 && b[2] == 0x46 && b[3] == 0x46
            &&& b[8] == 0x57 && b[9] == 0x41 && b[10] == 0x56 && b[11] == 0x45
            &&& format_from(b, 12) is Some
            &&& data_from(b, 12) is Some
            &&& format_from(b, 12)->0.tag == 1
            &&& format_from(b, 12)->0.bits == 16
            &&& format_from(b, 12)->0.channels > 0
        },
{
}

/// Only whole frames are filled, and as many as fit.
pub proof fn law_as_many_frames_as_fit(len: int, stride: int)
    requires
        len >= 0,
        stride > 0,
    ensures
        whole_frames(len, stride) % stride == 0,
        whole_frames(len, stride) <= len < whole_frames(len, stride) + stride,
{
    vstd::arithmetic::div_mod::lemma_fundamental_div_mod(len, stride);
    let q = len / stride;
    assert(stride * q == q * stride) by (nonlinear_arith);
    vstd::arithmetic::div_mod::lemma_mod_multiples_basic(q, stride);
}

/// Playing goes on where it stopped, and at the start once the clip was played.
pub proof fn law_a_clip_goes_round(cursor: int, clip_len: int)
    requires
        0 <= cursor,
        clip_len > 0,
    ensures
        cursor < clip_len ==> loop_start(cursor, clip_len) == cursor,
        cursor >= clip_len ==> loop_start(cursor, clip_len) == 0,
{
}

/// A written clip states its sizes: that of the file behind the first eight bytes, the
/// bytes of a second and of a frame, as far as their fields hold them, and that of the
/// data.
pub proof fn law_a_written_clip_states_its_sizes(pcm: Seq<u8>, rate: u32, bits: u16, channels: u16)
    requires
        pcm.len() <= u32::MAX - 36,
    ensures
        ({
            let b = wav_file(pcm, rate, bits, channels);
            let frame = channels as int * bits as int / 8;
            &&& b.len() == 44 + pcm.len()
            &&& le32(b[4], b[5], b[6], b[7]) == b.len() - 8
            &&& le32(b[28], b[29], b[30], b[31]) == rate * frame % 0x1_0000_0000
            &&& le16(b[32], b[33]) == frame % 0x1_0000
            &&& le32(b[40], b[41], b[42], b[43]) == pcm.len()
        }),
{
    let b = wav_file(pcm, rate, bits, channels);
    let frame = channels as int * bits as int / 8;
    let second = (rate * frame % 0x1_0000_0000) as u32;
    let block = (frame % 0x1_0000) as u16;
    lemma_le_round_trip(block, (36 + pcm.len()) as u32);
    lemma_le_round_trip(block, second);
    lemma_le_round_trip(block, pcm.len() as u32);
    let s1 = le32_bytes((36 + pcm.len()) as u32);
    let s2 = le32_bytes(second);
    let s3 = le16_bytes(block);
    let s4 = le32_bytes(pcm.len() as u32);
    assert(b[4] == s1[0] && b[5] == s1[1] && b[6] == s1[2] && b[7] == s1[3]);
    assert(b[28] == s2[0] && b[29] == s2[1] && b[30] == s2[2] && b[31] == s2[3]);
    assert(b[32] == s3[0] && b[33] == s3[1]);
    assert(b[40] == s4[0] && b[41] == s4[1] && b[42] == s4[2] && b[43] == s4[3]);
}

} // verus!
