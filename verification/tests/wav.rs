use bridge_daemon::wav::{build_wav, fill_looped, has_a_frame, parse_wav, Wav};

#[test]
fn parses_our_own_wav() {
    let pcm = vec![1u8, 2, 3, 4, 5, 6, 7, 8]; // 2 stereo 16-bit frames
    let bytes = build_wav(&pcm, 44100, 16, 2);
    let w = parse_wav(&bytes).ok().unwrap();
    assert_eq!(w.rate, 44100);
    assert_eq!(w.channels, 2);
    assert_eq!(w.pcm, pcm);
}

#[test]
fn rejects_non_wav() {
    assert!(parse_wav(b"not a wav at all").is_err());
}

#[test]
fn rejects_non_pcm_bit_depth() {
    let bytes = build_wav(&[0u8; 16], 22050, 24, 1);
    assert!(parse_wav(&bytes).is_err());
}

#[test]
fn each_refusal_has_its_own_message() {
    let err = |b: &[u8]| parse_wav(b).err().unwrap();
    assert_eq!(err(b"RIFF"), "not a RIFF/WAVE file");
    assert_eq!(err(b"RIFF\0\0\0\0WAVE"), "no fmt chunk");
    let good = build_wav(&[1, 2, 3, 4], 8000, 16, 1);
    assert_eq!(err(&good[..36]), "no data chunk");
    let mut float = good.clone();
    float[20] = 3;
    assert_eq!(err(&float), "unsupported WAV format tag 3 (only PCM)");
    let deep = build_wav(&[1, 2, 3], 8000, 24, 1);
    assert_eq!(err(&deep), "unsupported WAV bit depth 24 (only 16-bit)");
    let silent = build_wav(&[1, 2], 8000, 16, 0);
    assert_eq!(err(&silent), "WAV has zero channels");
}

#[test]
fn other_chunks_are_passed_over_and_the_last_data_chunk_counts() {
    let mut bytes = build_wav(&[9, 9], 16000, 16, 1);
    // An odd-sized chunk with its pad byte, then a second data chunk.
    bytes.extend_from_slice(b"LIST\x03\x00\x00\x00abc\0");
    bytes.extend_from_slice(b"data\x04\x00\x00\x00\x01\x02\x03\x04");
    let w = parse_wav(&bytes).ok().unwrap();
    assert_eq!(w.pcm, vec![1, 2, 3, 4]);
    // A data chunk that states more than is there is cut off at the end.
    bytes.truncate(bytes.len() - 1);
    assert_eq!(parse_wav(&bytes).ok().unwrap().pcm, vec![1, 2, 3]);
}

#[test]
fn a_clip_is_played_round_without_a_gap() {
    let clip = [1u8, 2, 3, 4, 5, 6];
    let mut out = [0u8; 11];
    // Whole frames only: 10 of the 11 bytes at a stride of 2.
    let (written, cursor) = fill_looped(&mut out, &clip, 4, 2);
    assert_eq!(written, 10);
    assert_eq!(out, [5, 6, 1, 2, 3, 4, 5, 6, 1, 2, 0]);
    assert_eq!(cursor, 2);
    // Going on continues exactly where it stopped.
    let mut next = [0u8; 4];
    let (written, cursor) = fill_looped(&mut next, &clip, cursor, 2);
    assert_eq!((written, cursor), (4, 6));
    assert_eq!(next, [3, 4, 5, 6]);
    let mut wrapped = [0u8; 2];
    assert_eq!(fill_looped(&mut wrapped, &clip, cursor, 2), (2, 2));
    assert_eq!(wrapped, [1, 2]);
    let mut none = [0u8; 1];
    assert_eq!(fill_looped(&mut none, &clip, 3, 2), (0, 3));
}

#[test]
fn a_clip_without_a_whole_frame_is_not_played() {
    assert!(!has_a_frame(&Wav { rate: 48000, channels: 2, pcm: vec![0, 0, 0] }));
    assert!(has_a_frame(&Wav { rate: 48000, channels: 2, pcm: vec![0, 0, 0, 0] }));
}
