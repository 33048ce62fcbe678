use bridge_daemon::resample::{from_48k_stereo_to, to_48k_stereo_s16le};

fn s16(v: &[i16]) -> Vec<u8> {
    v.iter().flat_map(|s| s.to_le_bytes()).collect()
}

fn to_i16(b: &[u8]) -> Vec<i16> {
    b.chunks_exact(2).map(|c| i16::from_le_bytes([c[0], c[1]])).collect()
}

/// A repeatable row of samples that uses the whole range.
fn noise(n: usize, mut seed: u64) -> Vec<i16> {
    let mut out = Vec::new();
    for _ in 0..n {
        seed = seed.wrapping_mul(6364136223846793005).wrapping_add(1442695040888963407);
        out.push((seed >> 48) as u16 as i16);
    }
    out
}

/// Linear interpolation in double precision.
fn float_channel(chan: &[i16], frames: usize, ratio: f64) -> Vec<i16> {
    let mut out = Vec::new();
    for of in 0..frames {
        let pos = of as f64 * ratio;
        let i = pos.floor() as usize;
        let frac = pos - i as f64;
        let a = chan.get(i).copied().unwrap_or(0) as f64;
        let b = chan.get(i + 1).copied().unwrap_or(a as i16) as f64;
        out.push((a + (b - a) * frac).round().clamp(i16::MIN as f64, i16::MAX as f64) as i16);
    }
    out
}

#[test]
fn mono_48k_is_duplicated_to_stereo_same_length() {
    let out = to_48k_stereo_s16le(&s16(&[100, 200, 300]), 48_000, 1);
    assert_eq!(to_i16(&out), vec![100, 100, 200, 200, 300, 300]);
}

#[test]
fn stereo_48k_passes_through() {
    let out = to_48k_stereo_s16le(&s16(&[10, 20, 30, 40]), 48_000, 2);
    assert_eq!(to_i16(&out), vec![10, 20, 30, 40]);
}

#[test]
fn upsamples_24k_to_48k_roughly_doubling_frames() {
    // 4 mono frames @ 24k → ~8 stereo frames @ 48k.
    let out = to_48k_stereo_s16le(&s16(&[0, 100, 200, 300]), 24_000, 1);
    let frames = out.len() / 4;
    assert_eq!(frames, 8);
    // First output frame == first input sample (pos 0).
    assert_eq!(to_i16(&out[0..4]), vec![0, 0]);
    // Exactly half way between two samples, and the last one held.
    assert_eq!(to_i16(&out).into_iter().step_by(2).collect::<Vec<_>>(), vec![0, 50, 100, 150, 200, 250, 300, 300]);
}

#[test]
fn keeps_first_two_of_multichannel() {
    // 1 frame, 3 channels [L=10, R=20, C=30] → stereo [10,20].
    let out = to_48k_stereo_s16le(&s16(&[10, 20, 30]), 48_000, 3);
    assert_eq!(to_i16(&out), vec![10, 20]);
}

#[test]
fn nothing_comes_of_nothing() {
    assert!(to_48k_stereo_s16le(&s16(&[1, 2]), 48_000, 0).is_empty());
    assert!(to_48k_stereo_s16le(&s16(&[1, 2]), 0, 2).is_empty());
    assert!(to_48k_stereo_s16le(&[7], 48_000, 1).is_empty());
    assert!(to_48k_stereo_s16le(&[], 44_100, 2).is_empty());
}

#[test]
fn audio_at_the_bus_rate_is_handed_through() {
    let pcm = s16(&noise(10, 1));
    assert_eq!(from_48k_stereo_to(&pcm, 48_000), pcm);
    assert_eq!(from_48k_stereo_to(&pcm, 0), pcm);
    assert_eq!(from_48k_stereo_to(&[1, 2, 3], 44_100), vec![1, 2, 3]);
}

#[test]
fn interpolation_to_the_bus_is_that_of_double_precision() {
    for (rate, seed) in [(44_100u32, 1u64), (22_050, 2), (8_000, 3), (96_000, 4), (11_025, 5), (44_056, 6), (192_000, 7), (1, 8), (47_999, 9)] {
        let n = if rate == 1 { 2 } else { 500 };
        let mono = noise(n, seed);
        let out = to_i16(&to_48k_stereo_s16le(&s16(&mono), rate, 1));
        let frames = (n as u64 * 48_000 / rate as u64) as usize;
        let want = float_channel(&mono, frames, rate as f64 / 48_000f64);
        assert_eq!(out.len(), 2 * frames);
        for k in 0..frames {
            assert_eq!((out[2 * k], out[2 * k + 1]), (want[k], want[k]), "rate {rate}, frame {k}");
        }
    }
}

#[test]
fn interpolation_from_the_bus_is_that_of_double_precision() {
    for (rate, seed) in [(44_100u32, 11u64), (22_050, 12), (96_000, 13), (88_200, 14), (16_000, 15), (47_952, 16)] {
        let n = 400usize;
        let both = noise(2 * n, seed);
        let left: Vec<i16> = both.iter().step_by(2).copied().collect();
        let right: Vec<i16> = both.iter().skip(1).step_by(2).copied().collect();
        let out = to_i16(&from_48k_stereo_to(&s16(&both), rate));
        let frames = (n as u64 * rate as u64 / 48_000) as usize;
        let ratio = 48_000f64 / rate as f64;
        let l = float_channel(&left, frames, ratio);
        let r = float_channel(&right, frames, ratio);
        assert_eq!(out.len(), 2 * frames);
        for k in 0..frames {
            assert_eq!((out[2 * k], out[2 * k + 1]), (l[k], r[k]), "rate {rate}, frame {k}");
        }
    }
}

#[test]
fn steady_audio_stays_what_it_is() {
    for level in [-32768i16, -12345, -1, 0, 1, 20000, 32767] {
        let out = to_i16(&to_48k_stereo_s16le(&s16(&[level; 50]), 44_100, 2));
        assert!(out.iter().all(|s| *s == level));
    }
}

#[test]
fn the_first_sample_is_kept_at_every_rate() {
    for rate in [8_000u32, 22_050, 44_100, 96_000] {
        let out = to_i16(&to_48k_stereo_s16le(&s16(&[-321, 9000, 5, 6]), rate, 1));
        assert_eq!(out[0], -321);
    }
}
