use bridge_daemon::codec::{
    base64_encode, codec_delay_us, codec_header_base64, flac_stream_header, lookahead_us, min_send_ahead_us, opus_floor_lower_bound_ms,
    opus_packet, opus_samples, Encoder, Payload, Reblocker, BYTES_PER_FRAME, DEFAULT_OPUS_FLOOR_MS, OPUS_FRAME_FRAMES,
};
use bridge_daemon::flac::{FlacEncoder, CHANNELS, FLAC_BLOCK_FRAMES, SAMPLE_RATE};

fn pcm_frames(n: usize) -> Vec<u8> {
    // A quiet ramp — real-ish input, so the encoders actually do work.
    (0..n * CHANNELS as usize).flat_map(|i| ((i as i16).wrapping_mul(64)).to_le_bytes()).collect()
}

#[test]
fn reblocker_passes_pcm_through_untouched() {
    let mut r = Reblocker::new(None);
    let chunk = pcm_frames(1024);
    r.push(&chunk);
    let len = r.ready().expect("a pushed chunk is immediately ready");
    assert_eq!(r.block(len), &chunk[..], "PCM must not be re-cut");
    r.consume(len);
    assert_eq!(r.ready(), None);
}

#[test]
fn reblocker_cuts_fixed_blocks_and_carries_the_remainder() {
    let mut r = Reblocker::new(Some(OPUS_FRAME_FRAMES));
    // One capture quantum (1024 frames) is more than one 960-frame Opus block…
    r.push(&pcm_frames(1024));
    let len = r.ready().expect("960 frames are available");
    assert_eq!(len, OPUS_FRAME_FRAMES * BYTES_PER_FRAME);
    r.consume(len);
    // …and the 64-frame remainder waits for the next quantum instead of being
    // sent short or dropped.
    assert_eq!(r.ready(), None);
    r.push(&pcm_frames(1024));
    assert_eq!(r.ready(), Some(OPUS_FRAME_FRAMES * BYTES_PER_FRAME));
}

#[test]
fn reblocker_does_not_grow_in_the_steady_state() {
    let mut r = Reblocker::new(Some(OPUS_FRAME_FRAMES));
    let cap = r.buf.capacity();
    for _ in 0..500 {
        r.push(&pcm_frames(1024));
        while let Some(len) = r.ready() {
            let _ = r.block(len);
            r.consume(len);
        }
    }
    assert_eq!(r.buf.capacity(), cap, "the accumulator must not reallocate on the RT path");
}

#[test]
fn the_blocks_in_a_row_are_the_stream() {
    let stream = pcm_frames(5000);
    let mut r = Reblocker::new(Some(FLAC_BLOCK_FRAMES));
    let mut seen: Vec<u8> = Vec::new();
    for chunk in stream.chunks(777) {
        r.push(chunk);
        while let Some(len) = r.ready() {
            assert_eq!(len, FLAC_BLOCK_FRAMES * BYTES_PER_FRAME);
            seen.extend_from_slice(r.block(len));
            r.consume(len);
        }
    }
    seen.extend_from_slice(&r.buf);
    assert_eq!(seen, stream);
}

#[test]
fn flac_encodes_a_block_losslessly_smaller_than_pcm() {
    let mut e = FlacEncoder::new().expect("flacenc is pure Rust, so this must succeed");
    let block = pcm_frames(FLAC_BLOCK_FRAMES);
    let frame = e.encode(&block).expect("a full block encodes");
    // FLAC frames start with the 14-bit sync code 0b11111111111110.
    assert_eq!(frame[0], 0xff, "not a FLAC frame header");
    assert_eq!(frame[1] & 0xfc, 0xf8, "not a FLAC frame header");
    assert!(frame.len() < block.len(), "lossless should still beat raw PCM on a ramp");
    // Frame numbers advance so a decoder sees a continuous stream.
    assert_eq!(e.frame_number(), 1);
    e.encode(&block).unwrap();
    assert_eq!(e.frame_number(), 2);
}

#[test]
fn flac_frames_differ_by_their_number_and_take_short_blocks() {
    let mut e = FlacEncoder::new().unwrap();
    let block = pcm_frames(FLAC_BLOCK_FRAMES);
    let first = e.encode(&block).unwrap();
    let second = e.encode(&block).unwrap();
    assert_ne!(first, second);
    for frames in [1, 2, 31, 63, 64, 65, 1023] {
        assert!(e.encode(&pcm_frames(frames)).is_some(), "{frames} frames");
    }
    // A trailing sample that makes no whole frame is left out.
    assert!(e.encode(&pcm_frames(100)[..398]).is_some());
}

#[test]
fn only_flac_gets_a_codec_header_and_it_is_a_real_flac_stream_header() {
    assert_eq!(codec_header_base64("pcm"), None);
    assert_eq!(codec_header_base64("opus"), None, "the client synthesizes Opus's header from stream/start");
    let raw = flac_stream_header();
    assert_eq!(&raw[..4], b"fLaC");
    assert_eq!(raw[4], 0x80, "STREAMINFO must be flagged as the last metadata block");
    assert_eq!(&raw[5..8], &[0, 0, 34], "STREAMINFO is 34 bytes");
    assert_eq!(raw.len(), 42);
    // Block size, sample rate, channels and depth must round-trip out of the
    // packed bit fields — a decoder that misreads these plays noise.
    assert_eq!(u16::from_be_bytes([raw[8], raw[9]]), FLAC_BLOCK_FRAMES as u16);
    assert_eq!(u16::from_be_bytes([raw[10], raw[11]]), FLAC_BLOCK_FRAMES as u16);
    let si = &raw[8..];
    let rate = (u32::from(si[10]) << 12) | (u32::from(si[11]) << 4) | (u32::from(si[12]) >> 4);
    assert_eq!(rate, SAMPLE_RATE);
    assert_eq!(((si[12] >> 1) & 0x07) + 1, CHANNELS as u8);
    let depth = (((u32::from(si[12]) & 0x01) << 4) | (u32::from(si[13]) >> 4)) + 1;
    assert_eq!(depth, 16);
    // And it must be valid base64 of exactly that blob.
    assert_eq!(codec_header_base64("flac"), Some(base64_encode(&raw)));
}

#[test]
fn base64_matches_known_vectors() {
    assert_eq!(base64_encode(b""), "");
    assert_eq!(base64_encode(b"f"), "Zg==");
    assert_eq!(base64_encode(b"fo"), "Zm8=");
    assert_eq!(base64_encode(b"foo"), "Zm9v");
    assert_eq!(base64_encode(b"foobar"), "Zm9vYmFy");
    assert_eq!(base64_encode(b"fLaC"), "ZkxhQw==");
}

#[test]
fn base64_uses_its_last_two_digits() {
    assert_eq!(base64_encode(&[0xfb, 0xff, 0xbf]), "+/+/");
}

#[test]
fn block_size_choice_stays_inside_the_specs_chunk_bounds() {
    for frames in [OPUS_FRAME_FRAMES, FLAC_BLOCK_FRAMES] {
        let ms = frames as f64 * 1000.0 / f64::from(SAMPLE_RATE);
        assert!((15.0..=150.0).contains(&ms), "{frames} frames = {ms} ms is outside the spec bounds");
    }
}

#[test]
fn what_a_codec_needs() {
    assert_eq!(Encoder::block_frames("opus"), Some(960));
    assert_eq!(Encoder::block_frames("flac"), Some(1024));
    assert_eq!(Encoder::block_frames("pcm"), None);
    assert_eq!(min_send_ahead_us("opus", DEFAULT_OPUS_FLOOR_MS), 40_000);
    assert_eq!(min_send_ahead_us("flac", 250), 0);
    assert_eq!(opus_floor_lower_bound_ms("opus"), 20);
    assert_eq!(opus_floor_lower_bound_ms("flac"), 21);
    assert_eq!(opus_floor_lower_bound_ms("pcm"), 0);
}

#[test]
fn only_opus_reports_an_encoder_delay_and_it_matches_libopus() {
    // PCM and FLAC decode block N to exactly block N's samples: no delay.
    assert_eq!(codec_delay_us("pcm", Some(312)), 0);
    assert_eq!(codec_delay_us("flac", Some(312)), 0);
    // libopus at 48 kHz reports 312 samples for this configuration.
    let opus = codec_delay_us("opus", Some(312));
    assert!((3_000..=15_000).contains(&opus), "implausible opus lookahead: {opus} us");
    assert_eq!(opus, lookahead_us(312), "the group-level constant must be what the encoder reports");
    assert_eq!(opus, 6_500);
    assert_eq!(codec_delay_us("opus", None), 0);
    assert_eq!(lookahead_us(-1), -20);
}

#[test]
fn opus_rejects_a_wrongly_sized_block() {
    // libopus only accepts its legal frame sizes, so a mis-cut block must be
    // dropped, not sent.
    let mut e = Encoder::new("opus").unwrap();
    assert!(e.encode(&pcm_frames(OPUS_FRAME_FRAMES + 1)).is_none());
    assert!(opus_samples(&pcm_frames(OPUS_FRAME_FRAMES + 1)).is_none());
}

#[test]
fn opus_blocks_have_exactly_their_size() {
    let s = opus_samples(&pcm_frames(OPUS_FRAME_FRAMES)).unwrap();
    assert_eq!(s.len(), 1920);
    assert_eq!(&s[..3], &[0, 64, 128]);
    assert_eq!(opus_packet(&[1, 2, 3], 2), Some(&[1u8, 2][..]));
    assert_eq!(opus_packet(&[1, 2, 3], -4), None);
}

#[test]
fn each_codec_has_its_encoder() {
    assert!(Encoder::new("mp3").is_none());
    let mut pcm = Encoder::new("pcm").unwrap();
    assert!(matches!(pcm.encode(&[1, 2, 3]), Some(Payload::Bytes(b)) if b == vec![1, 2, 3]));
    let mut opus = Encoder::new("opus").unwrap();
    assert!(matches!(opus.encode(&pcm_frames(960)), Some(Payload::Opus(s)) if s.len() == 1920));
    assert!(opus.encode(&pcm_frames(10)).is_none());
    let mut flac = Encoder::new("flac").unwrap();
    assert!(matches!(flac.encode(&pcm_frames(1024)), Some(Payload::Bytes(b)) if b[0] == 0xff));
}

#[test]
fn a_run_of_odd_chunks_loses_nothing() {
    let stream: Vec<u8> = (0..1000u32).map(|i| (i % 251) as u8).collect();
    let mut r = Reblocker::new(Some(3));
    let mut taken: Vec<u8> = Vec::new();
    let mut from = 0;
    for size in [1, 0, 11, 12, 13, 100, 7, 300, 556] {
        r.push(&stream[from..from + size]);
        from += size;
        while let Some(len) = r.ready() {
            assert_eq!(len, 12);
            taken.extend_from_slice(r.block(len));
            r.consume(len);
        }
        assert!(r.buf.len() < 12);
        assert_eq!([taken.as_slice(), r.buf.as_slice()].concat(), &stream[..from]);
    }
    assert_eq!((taken.len(), r.buf.len()), (996, 4));
}
