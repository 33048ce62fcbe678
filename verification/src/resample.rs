//! Bringing audio to another rate by linear interpolation, so that an announcement can
//! be mixed into what a device plays.
//!
//! The interpolation is that of double-precision arithmetic, carried out on integers:
//! every quantity is counted in units of 2^-70, which is fine enough for all of them,
//! and rounded to 53 significant bits after each operation, to even where two are
//! equally near.

use crate::bytes::{push_sample, read_sample, sample, sample_bytes};
use vstd::arithmetic::power2::{lemma2_to64, lemma_pow2_adds, lemma_pow2_pos, pow2};
use vstd::prelude::*;

verus! {

/// The rate of the capture bus, in Hz.
pub const TARGET_RATE: u32 = 48_000;

/// One, in units of 2^-70.
pub const ONE: u128 = 0x40_0000_0000_0000_0000;

/// The first number that has more than 53 bits.
pub const LIMIT: u128 = 0x20_0000_0000_0000;

// ---- double precision -------------------------------------------------------------------

/// The smallest of `w`, `2 * w`, `4 * w` and so on that holds `n` less than 2^53 times.
pub open spec fn spread(n: int, w: int) -> int
    decreases n - w,
{
    if w <= 0 || n < w * LIMIT {
        w
    } else {
        spread(n, 2 * w)
    }
}

/// `n / d`, rounded to 53 significant bits, to even where two are equally near. A
/// quotient below 2^53 is rounded to an integer.
pub open spec fn nearest(n: int, d: int) -> int {
    let w = spread(n, d);
    let q = n / w;
    let r = n % w;
    let up = 2 * r > w || (2 * r == w && q % 2 == 1);
    (q + if up {
        1int
    } else {
        0
    }) * (w / d)
}

/// How far apart the samples of the output are, counted in samples of the input.
pub open spec fn spacing(from: u32, to: u32) -> int {
    nearest(from * ONE, to as int)
}

/// Where a sample of the output lies in the input.
pub open spec fn position(k: int, spacing: int) -> int {
    nearest(k * spacing, 1)
}

pub open spec fn magnitude(x: int) -> int {
    if x < 0 {
        -x
    } else {
        x
    }
}

/// `x` with the sign of `of`.
pub open spec fn signed(x: int, of: int) -> int {
    if of < 0 {
        -x
    } else {
        x
    }
}

pub open spec fn clamped(x: int) -> int {
    if x < -32768 {
        -32768
    } else if x > 32767 {
        32767
    } else {
        x
    }
}

/// The value that lies this far from `a` to `b`, rounded to an integer, away from zero
/// where two are equally near.
pub open spec fn blend(a: int, b: int, frac: int) -> int {
    let part = signed(nearest(magnitude(b - a) * frac, 1), b - a);
    let exact = a * ONE + part;
    let sum = nearest(magnitude(exact), 1);
    clamped(signed((2 * sum + ONE) / (2 * ONE), exact))
}

proof fn lemma_spread(n: int, w: int)
    requires
        w > 0,
    ensures
        spread(n, w) >= w,
        n < spread(n, w) * LIMIT,
        spread(n, w) == w || spread(n, w) * LIMIT <= 2 * n,
    decreases n - w,
{
    if n >= w * LIMIT {
        lemma_spread(n, 2 * w);
    }
}

fn nearest_quotient(n: u128, d: u128) -> (r: u128)
    requires
        0 < d <= 0x1_0000_0000,
        n < 0x2000_0000_0000_0000_0000_0000_0000_0000,
    ensures
        r == nearest(n as int, d as int),
        d == 1 ==> r <= 2 * n,
{
    let mut w: u128 = d;
    let mut u: u128 = 1;
    while n / LIMIT >= w
        invariant
            0 < d <= w,
            u > 0,
            w == d * u,
            n < 0x2000_0000_0000_0000_0000_0000_0000_0000,
            spread(n as int, w as int) == spread(n as int, d as int),
            w <= 0x1_0000_0000 || w <= 2 * (n / LIMIT),
        decreases n - w,
    {
        assert(n >= w * LIMIT) by (nonlinear_arith)
            requires
                n / LIMIT >= w,
                LIMIT == 0x20_0000_0000_0000,
        ;
        assert(2 * w == d * (2 * u)) by (nonlinear_arith)
            requires
                w == d * u,
        ;
        assert(u <= w) by (nonlinear_arith)
            requires
                w == d * u,
                d > 0,
                u > 0,
        ;
        w = 2 * w;
        u = 2 * u;
    }
    assert(n < w * LIMIT) by (nonlinear_arith)
        requires
            n / LIMIT < w,
            LIMIT == 0x20_0000_0000_0000,
    ;
    assert(spread(n as int, d as int) == w);
    let q: u128 = n / w;
    let rest: u128 = n % w;
    let up = 2 * rest > w || (2 * rest == w && q % 2 == 1);
    proof {
        assert(q < LIMIT) by (nonlinear_arith)
            requires
                n < w * LIMIT,
                w > 0,
                q == n / w,
        ;
        assert(u <= w) by (nonlinear_arith)
            requires
                w == d * u,
                d > 0,
                u > 0,
        ;
        assert((q + 1) * u <= LIMIT * u) by (nonlinear_arith)
            requires
                q < LIMIT,
        ;
        assert(q * u <= (q + 1) * u) by (nonlinear_arith)
            requires
                u > 0,
        ;
        vstd::arithmetic::div_mod::lemma_div_multiples_vanish(u as int, d as int);
        assert(w as int / d as int == u as int);
        if d == 1 {
            vstd::arithmetic::div_mod::lemma_fundamental_div_mod(n as int, w as int);
            assert(q * u <= n && (q + 1) * u <= n + w) by (nonlinear_arith)
                requires
                    n == w * q + rest,
                    rest >= 0,
                    w == u,
            ;
            if w == 1 {
                assert(rest == 0);
            }
        }
    }
    if up {
        (q + 1) * u
    } else {
        q * u
    }
}

fn blended(a: i16, b: i16, frac: u128) -> (r: i16)
    requires
        frac < ONE,
    ensures
        r == blend(a as int, b as int, frac as int),
{
    let diff: i32 = (b as i32) - (a as i32);
    let size: u128 = if diff < 0 {
        (-diff) as u128
    } else {
        diff as u128
    };
    assert(size * frac <= 65535 * ONE) by (nonlinear_arith)
        requires
            size <= 65535,
            frac < ONE,
    ;
    assert(0 <= size * frac) by (nonlinear_arith);
    let part: u128 = nearest_quotient(size * frac, 1);
    let base: i128 = (a as i128) * (ONE as i128);
    let exact: i128 = if diff < 0 {
        base - (part as i128)
    } else {
        base + (part as i128)
    };
    let whole: u128 = if exact < 0 {
        (-exact) as u128
    } else {
        exact as u128
    };
    let sum: u128 = nearest_quotient(whole, 1);
    let near: u128 = (2 * sum + ONE) / (2 * ONE);
    let value: i128 = if exact < 0 {
        -(near as i128)
    } else {
        near as i128
    };
    if value < -32768 {
        -32768
    } else if value > 32767 {
        32767
    } else {
        value as i16
    }
}

// ---- channels ------------------------------------------------------------------------------

/// The sample of channel `c` in frame `f` of interleaved audio.
pub open spec fn sample_at(pcm: Seq<u8>, channels: int, c: int, f: int) -> int {
    let at = (f * channels + c) * 2;
    sample(pcm[at], pcm[at + 1])
}

/// The same, and `missing` behind the last frame.
pub open spec fn held_sample(
    pcm: Seq<u8>,
    channels: int,
    c: int,
    frames: int,
    f: int,
    missing: int,
) -> int {
    if f < frames {
        sample_at(pcm, channels, c, f)
    } else {
        missing
    }
}

/// Sample `k` of channel `c` at the new rate. Behind the last frame its sample is held.
pub open spec fn interpolated(
    pcm: Seq<u8>,
    channels: int,
    c: int,
    frames: int,
    k: int,
    spacing: int,
) -> int {
    let at = position(k, spacing);
    let a = held_sample(pcm, channels, c, frames, at / ONE as int, 0);
    let b = held_sample(pcm, channels, c, frames, at / ONE as int + 1, a);
    blend(a, b, at % ONE as int)
}

/// Frame `k` of 16-bit stereo.
pub open spec fn stereo_frame(b: Seq<u8>, k: int) -> Seq<u8> {
    b.subrange(4 * k, 4 * k + 4)
}

/// How many frames there are at the new rate.
pub open spec fn new_frames(frames: int, from: u32, to: u32) -> int {
    frames * to / from as int
}

fn sample_of(pcm: &[u8], channels: usize, c: usize, frames: usize, f: u128, missing: i16) -> (r: i16)
    requires
        channels > 0,
        c < channels,
        frames * channels * 2 <= pcm@.len(),
    ensures
        r == held_sample(pcm@, channels as int, c as int, frames as int, f as int, missing as int),
{
    if f < frames as u128 {
        let f: usize = f as usize;
        let len: usize = pcm.len();
        proof {
            assert((f * channels + c) * 2 + 1 < len && 0 <= f * channels) by (nonlinear_arith)
                requires
                    f < frames,
                    c < channels,
                    frames * channels * 2 <= len,
            ;
        }
        let at: usize = (f * channels + c) * 2;
        read_sample(pcm[at], pcm[at + 1])
    } else {
        missing
    }
}

fn interpolate(
    pcm: &[u8],
    channels: usize,
    c: usize,
    frames: usize,
    k: usize,
    spacing: u128,
) -> (r: i16)
    requires
        channels > 0,
        c < channels,
        frames * channels * 2 <= pcm@.len(),
        k * spacing < 0x2000_0000_0000_0000_0000_0000_0000_0000,
    ensures
        r == interpolated(
            pcm@,
            channels as int,
            c as int,
            frames as int,
            k as int,
            spacing as int,
        ),
{
    assert(0 <= k * spacing) by (nonlinear_arith);
    let at: u128 = nearest_quotient((k as u128) * spacing, 1);
    let i: u128 = at / ONE;
    let a = sample_of(pcm, channels, c, frames, i, 0);
    let b = sample_of(pcm, channels, c, frames, i + 1, a);
    blended(a, b, at % ONE)
}

fn push_frame(out: &mut Vec<u8>, left: i16, right: i16)
    requires
        old(out)@.len() % 4 == 0,
    ensures
        final(out)@.len() == old(out)@.len() + 4,
        forall|k: int|
            0 <= k < old(out)@.len() / 4 ==> #[trigger] stereo_frame(final(out)@, k)
                == stereo_frame(old(out)@, k),
        stereo_frame(final(out)@, old(out)@.len() as int / 4) == sample_bytes(left as int)
            + sample_bytes(right as int),
{
    let ghost before = out@;
    push_sample(out, left);
    push_sample(out, right);
    proof {
        let n = before.len() as int / 4;
        assert forall|k: int| 0 <= k < n implies #[trigger] stereo_frame(out@, k) == stereo_frame(
            before,
            k,
        ) by {
            assert(stereo_frame(out@, k) =~= stereo_frame(before, k));
        }
        assert(stereo_frame(out@, n) =~= sample_bytes(left as int) + sample_bytes(right as int));
    }
}

proof fn lemma_nearest_is_near(n: int, d: int)
    requires
        n >= 0,
        d > 0,
    ensures
        0 <= nearest(n, d),
        nearest(n, d) * d <= 2 * n + d,
{
    let w = spread(n, d);
    lemma_spread(n, d);
    lemma_spread_multiple(n, d, d, 1);
    let u = choose|u: int| u > 0 && w == #[trigger] (d * u);
    vstd::arithmetic::div_mod::lemma_div_multiples_vanish(u, d);
    let q = n / w;
    let r = n % w;
    vstd::arithmetic::div_mod::lemma_fundamental_div_mod(n, w);
    assert(q >= 0) by (nonlinear_arith)
        requires
            n >= 0,
            w > 0,
            q == n / w,
    ;
    assert(q * u * d == w * q && (q + 1) * u * d == w * q + w && q * u >= 0 && (q + 1) * u >= 0)
        by (nonlinear_arith)
        requires
            w == d * u,
            q >= 0,
            u > 0,
    ;
    if w != d {
        assert(w <= n);
    } else {
        assert(u == 1) by (nonlinear_arith)
            requires
                d == d * u,
                d > 0,
        ;
    }
}

proof fn lemma_spread_multiple(n: int, w: int, d: int, u: int)
    requires
        d > 0,
        u > 0,
        w == d * u,
    ensures
        exists|v: int| v > 0 && spread(n, w) == #[trigger] (d * v),
    decreases n - w,
{
    assert(w > 0) by (nonlinear_arith)
        requires
            w == d * u,
            d > 0,
            u > 0,
    ;
    if n >= w * LIMIT {
        assert(2 * w == d * (2 * u)) by (nonlinear_arith)
            requires
                w == d * u,
        ;
        lemma_spread_multiple(n, 2 * w, d, 2 * u);
    }
}

proof fn lemma_positions_fit(frames: int, from: u32, to: u32, k: int)
    requires
        0 <= frames <= LIMIT,
        from > 0,
        to > 0,
        0 <= k < new_frames(frames, from, to),
    ensures
        0 <= k * spacing(from, to) < 0x2000_0000_0000_0000_0000_0000_0000_0000,
{
    let s = spacing(from, to);
    lemma_nearest_is_near(from * ONE, to as int);
    let n = new_frames(frames, from, to);
    vstd::arithmetic::div_mod::lemma_fundamental_div_mod(frames * to, from as int);
    assert(n * from <= frames * to) by (nonlinear_arith)
        requires
            frames * to == from * n + (frames * to) % (from as int),
            (frames * to) % (from as int) >= 0,
    ;
    assert(k * s * to <= 2 * (k * from * ONE) + k * to) by (nonlinear_arith)
        requires
            s * to <= 2 * (from * ONE) + to,
            k >= 0,
    ;
    assert(k * from <= frames * to) by (nonlinear_arith)
        requires
            n * from <= frames * to,
            k < n,
            from > 0,
    ;
    assert(k * s <= 2 * frames * ONE + k) by (nonlinear_arith)
        requires
            k * s * to <= 2 * (k * from * ONE) + k * to,
            k * from <= frames * to,
            to > 0,
            ONE > 0,
    ;
    assert(k <= frames * to) by (nonlinear_arith)
        requires
            k * from <= frames * to,
            from > 0,
            k >= 0,
    ;
    assert(frames * to <= LIMIT * 0x1_0000_0000) by (nonlinear_arith)
        requires
            0 <= frames <= LIMIT,
            0 <= to < 0x1_0000_0000,
    ;
    assert(k * s >= 0) by (nonlinear_arith)
        requires
            k >= 0,
            s >= 0,
    ;
}

/// Audio of this many frames can be brought from one rate to the other: nothing runs
/// over on the way, and the result can be held.
pub open spec fn fits(frames: int, from: u32, to: u32) -> bool {
    &&& frames <= LIMIT
    &&& frames * to <= u64::MAX
    &&& new_frames(frames, from, to) * 4 <= isize::MAX
    &&& new_frames(frames, from, to) <= LIMIT
}

/// Brings interleaved 16-bit audio to 48 kHz stereo. One channel is played on both
/// sides; of more than two the first two are kept.
pub fn to_48k_stereo_s16le(pcm: &[u8], src_rate: u32, src_channels: u16) -> (r: Vec<u8>)
    requires
        src_rate > 0 && src_channels > 0 ==> fits(
            pcm@.len() as int / 2 / src_channels as int,
            src_rate,
            TARGET_RATE,
        ),
    ensures
        src_channels == 0 || src_rate == 0 || pcm@.len() < 2 ==> r@ == Seq::<u8>::empty(),
        src_channels > 0 && src_rate > 0 && pcm@.len() >= 2 ==> {
            let ch = src_channels as int;
            let right = if ch > 1 {
                1int
            } else {
                0
            };
            let frames = pcm@.len() as int / 2 / ch;
            if src_rate == TARGET_RATE {
                &&& r@.len() == 4 * frames
                &&& forall|k: int|
                    0 <= k < frames ==> #[trigger] stereo_frame(r@, k) == sample_bytes(
                        sample_at(pcm@, ch, 0, k),
                    ) + sample_bytes(sample_at(pcm@, ch, right, k))
            } else {
                let s = spacing(src_rate, TARGET_RATE);
                &&& r@.len() == 4 * new_frames(frames, src_rate, TARGET_RATE)
                &&& forall|k: int|
                    0 <= k < new_frames(frames, src_rate, TARGET_RATE)
                        ==> #[trigger] stereo_frame(r@, k) == sample_bytes(
                        interpolated(pcm@, ch, 0, frames, k, s),
                    ) + sample_bytes(interpolated(pcm@, ch, right, frames, k, s))
            }
        },
{
    let ch: usize = src_channels as usize;
    let mut out: Vec<u8> = Vec::new();
    if ch == 0 || src_rate == 0 || pcm.len() < 2 {
        return out;
    }
    let frames: usize = pcm.len() / 2 / ch;
    let right: usize = if ch > 1 {
        1
    } else {
        0
    };
    proof {
        assert(frames * ch * 2 <= pcm@.len()) by (nonlinear_arith)
            requires
                frames == pcm@.len() as int / 2 / ch as int,
                ch > 0,
        ;
    }
    if src_rate == TARGET_RATE {
        let mut k: usize = 0;
        while k < frames
            invariant
                k <= frames,
                ch > 0,
                right < ch,
                frames * ch * 2 <= pcm@.len(),
                out@.len() == 4 * k,
                forall|j: int|
                    0 <= j < k ==> #[trigger] stereo_frame(out@, j) == sample_bytes(
                        sample_at(pcm@, ch as int, 0, j),
                    ) + sample_bytes(sample_at(pcm@, ch as int, right as int, j)),
            decreases frames - k,
        {
            let l = sample_of(pcm, ch, 0, frames, k as u128, 0);
            let r = sample_of(pcm, ch, right, frames, k as u128, 0);
            push_frame(&mut out, l, r);
            k += 1;
        }
        return out;
    }
    let total: usize = ((frames as u64) * (TARGET_RATE as u64) / (src_rate as u64)) as usize;
    let step: u128 = nearest_quotient((src_rate as u128) * ONE, TARGET_RATE as u128);
    let mut k: usize = 0;
    while k < total
        invariant
            k <= total,
            ch > 0,
            right < ch,
            src_rate > 0,
            frames * ch * 2 <= pcm@.len(),
            frames <= LIMIT,
            total == new_frames(frames as int, src_rate, TARGET_RATE),
            step == spacing(src_rate, TARGET_RATE),
            out@.len() == 4 * k,
            forall|j: int|
                0 <= j < k ==> #[trigger] stereo_frame(out@, j) == sample_bytes(
                    interpolated(pcm@, ch as int, 0, frames as int, j, step as int),
                ) + sample_bytes(
                    interpolated(pcm@, ch as int, right as int, frames as int, j, step as int),
                ),
        decreases total - k,
    {
        proof {
            lemma_positions_fit(frames as int, src_rate, TARGET_RATE, k as int);
        }
        let l = interpolate(pcm, ch, 0, frames, k, step);
        let r = interpolate(pcm, ch, right, frames, k, step);
        push_frame(&mut out, l, r);
        k += 1;
    }
    out
}

/// Brings 48 kHz 16-bit stereo to another rate. At 48 kHz, for a rate of zero, and
/// where there is not even one frame, the audio is handed through.
pub fn from_48k_stereo_to(pcm: &[u8], dst_rate: u32) -> (r: Vec<u8>)
    requires
        fits(pcm@.len() as int / 4, TARGET_RATE, dst_rate),
    ensures
        dst_rate == 0 || dst_rate == TARGET_RATE || pcm@.len() < 4 ==> r@ == pcm@,
        dst_rate > 0 && dst_rate != TARGET_RATE && pcm@.len() >= 4 ==> {
            let frames = pcm@.len() as int / 4;
            let s = spacing(TARGET_RATE, dst_rate);
            &&& r@.len() == 4 * new_frames(frames, TARGET_RATE, dst_rate)
            &&& forall|k: int|
                0 <= k < new_frames(frames, TARGET_RATE, dst_rate) ==> #[trigger] stereo_frame(
                    r@,
                    k,
                ) == sample_bytes(interpolated(pcm@, 2, 0, frames, k, s)) + sample_bytes(
                    interpolated(pcm@, 2, 1, frames, k, s),
                )
        },
{
    if dst_rate == 0 || dst_rate == TARGET_RATE || pcm.len() < 4 {
        return vstd::slice::slice_to_vec(pcm);
    }
    let frames: usize = pcm.len() / 4;
    let mut out: Vec<u8> = Vec::new();
    let total: usize = ((frames as u64) * (dst_rate as u64) / (TARGET_RATE as u64)) as usize;
    let step: u128 = nearest_quotient((TARGET_RATE as u128) * ONE, dst_rate as u128);
    let mut k: usize = 0;
    while k < total
        invariant
            k <= total,
            dst_rate > 0,
            frames * 2 * 2 <= pcm@.len(),
            frames <= LIMIT,
            total == new_frames(frames as int, TARGET_RATE, dst_rate),
            step == spacing(TARGET_RATE, dst_rate),
            out@.len() == 4 * k,
            forall|j: int|
                0 <= j < k ==> #[trigger] stereo_frame(out@, j) == sample_bytes(
                    interpolated(pcm@, 2, 0, frames as int, j, step as int),
                ) + sample_bytes(interpolated(pcm@, 2, 1, frames as int, j, step as int)),
        decreases total - k,
    {
        proof {
            lemma_positions_fit(frames as int, TARGET_RATE, dst_rate, k as int);
        }
        let l = interpolate(pcm, 2, 0, frames, k, step);
        let r = interpolate(pcm, 2, 1, frames, k, step);
        push_frame(&mut out, l, r);
        k += 1;
    }
    out
}

// ---- laws -------------------------------------------------------------------------------------

proof fn lemma_spread_is_power(n: int, j: nat) -> (i: nat)
    requires
        n < 0x40_0000_0000_0000_0000_0000,
        j <= 34,
    ensures
        i <= 34,
        spread(n, pow2(j) as int) == pow2(i),
    decreases 40 - j,
{
    lemma_pow2_pos(j);
    if n >= pow2(j) * LIMIT {
        lemma2_to64();
        if j == 34 {
            lemma_pow2_adds(32, 2);
            assert(false);
        }
        lemma_pow2_adds(1, j);
        lemma_spread_is_power(n, j + 1)
    } else {
        j
    }
}

proof fn lemma_whole_is_kept(m: int)
    requires
        0 <= m <= 32768,
    ensures
        nearest(m * ONE, 1) == m * ONE,
{
    let n = m * ONE;
    lemma2_to64();
    let i = lemma_spread_is_power(n, 0);
    let w = spread(n, 1);
    assert(w == pow2(i));
    lemma_pow2_pos(i);
    lemma_pow2_adds(64, 6);
    lemma_pow2_adds(i, (70 - i) as nat);
    let v = pow2((70 - i) as nat) as int;
    assert(ONE == w * v);
    assert(n == (m * v) * w) by (nonlinear_arith)
        requires
            n == m * (w * v),
    ;
    vstd::arithmetic::div_mod::lemma_div_multiples_vanish(m * v, w);
    vstd::arithmetic::div_mod::lemma_mod_multiples_basic(m * v, w);
    assert(n / w == m * v) by {
        assert(w * (m * v) == n) by (nonlinear_arith)
            requires
                n == (m * v) * w,
        ;
    }
    assert(w / 1 == w);
}

proof fn lemma_no_part_no_change(a: int, b: int, frac: int)
    requires
        -32768 <= a <= 32767,
        magnitude(b - a) * frac == 0,
    ensures
        blend(a, b, frac) == a,
{
    lemma_whole_is_kept(0);
    let m = magnitude(a);
    lemma_whole_is_kept(m);
    assert(magnitude(a * ONE) == m * ONE);
    let two = 2 * ONE as int;
    assert(2 * (m * ONE) + ONE == m * two + ONE) by (nonlinear_arith)
        requires
            two == 2 * ONE,
    ;
    vstd::arithmetic::div_mod::lemma_fundamental_div_mod_converse(
        2 * (m * ONE) + ONE,
        two,
        m,
        ONE as int,
    );
}

/// Between two equal samples there is nothing else: a steady signal stays what it is.
pub proof fn law_steady_audio_stays(a: int, frac: int)
    requires
        -32768 <= a <= 32767,
    ensures
        blend(a, a, frac) == a,
{
    assert(magnitude(a - a) * frac == 0) by (nonlinear_arith)
        requires
            magnitude(a - a) == 0,
    ;
    lemma_no_part_no_change(a, a, frac);
}

/// The first sample of the input is the first one of the output, at every rate.
pub proof fn law_the_first_sample_is_kept(
    pcm: Seq<u8>,
    channels: int,
    c: int,
    frames: int,
    spacing: int,
)
    requires
        frames > 0,
    ensures
        interpolated(pcm, channels, c, frames, 0, spacing) == sample_at(pcm, channels, c, 0),
{
    lemma_whole_is_kept(0);
    assert(position(0, spacing) == 0);
    let a = sample_at(pcm, channels, c, 0);
    let b = held_sample(pcm, channels, c, frames, 1, a);
    assert(magnitude(b - a) * 0 == 0);
    lemma_no_part_no_change(a, b, 0);
}

proof fn lemma_spread_is_multiple(n: int, w: int, d: int)
    requires
        d > 0,
        w > 0,
        w % d == 0,
    ensures
        spread(n, w) % d == 0,
    decreases n - w,
{
    if n >= w * LIMIT {
        vstd::arithmetic::div_mod::lemma_fundamental_div_mod(w, d);
        let q = w / d;
        assert(2 * w == (2 * q) * d) by (nonlinear_arith)
            requires
                w == d * q,
        ;
        vstd::arithmetic::div_mod::lemma_mod_multiples_basic(2 * q, d);
        lemma_spread_is_multiple(n, 2 * w, d);
    }
}

/// Rounding a quotient moves it by no more than one part in 2^53 of itself, or by half
/// a unit where that is more.
proof fn lemma_rounding_is_near(n: int, d: int)
    requires
        n >= 0,
        d > 0,
    ensures
        2 * magnitude(nearest(n, d) * d - n) <= d || magnitude(nearest(n, d) * d - n) * LIMIT <= n,
        d == 1 ==> magnitude(nearest(n, 1) - n) * LIMIT <= n,
        nearest(n, d) >= 0,
{
    let w = spread(n, d);
    lemma_spread(n, d);
    assert(d % d == 0) by (nonlinear_arith)
        requires
            d > 0,
    ;
    lemma_spread_is_multiple(n, d, d);
    let q = n / w;
    let r = n % w;
    vstd::arithmetic::div_mod::lemma_fundamental_div_mod(n, w);
    vstd::arithmetic::div_mod::lemma_fundamental_div_mod(w, d);
    assert(q >= 0 && 0 <= r < w) by (nonlinear_arith)
        requires
            n >= 0,
            w > 0,
            q == n / w,
            r == n % w,
    ;
    let up = 2 * r > w || (2 * r == w && q % 2 == 1);
    let p = q + if up {
        1int
    } else {
        0
    };
    assert((p * (w / d)) * d == p * w) by (nonlinear_arith)
        requires
            w == d * (w / d),
    ;
    assert(q * w == w * q) by (nonlinear_arith);
    assert((q + 1) * w == q * w + w) by (nonlinear_arith);
    let e = p * w - n;
    assert(nearest(n, d) * d == p * w);
    assert(2 * magnitude(e) <= w);
    assert(p * (w / d) >= 0) by (nonlinear_arith)
        requires
            p >= 0,
            w / d >= 0,
    ;
    if w != d {
        assert(magnitude(e) * LIMIT * 2 <= w * LIMIT) by (nonlinear_arith)
            requires
                2 * magnitude(e) <= w,
                magnitude(e) >= 0,
                LIMIT > 0,
        ;
    } else if d == 1 {
        assert(r == 0);
        assert(e == 0);
    }
    if d == 1 {
        let m = nearest(n, 1);
        assert(m * 1 == m) by (nonlinear_arith);
        assert(magnitude(e) * LIMIT <= n);
        assert(magnitude(nearest(n, 1) - n) == magnitude(e));
    }
}

/// The samples of the output lie as far apart as the rates say: their distance, times
/// the new rate, is the old rate, but for rounding.
pub proof fn law_samples_are_spaced_by_the_rates(from: u32, to: u32)
    requires
        to > 0,
    ensures
        2 * magnitude(spacing(from, to) * to - from * ONE) <= to || magnitude(
            spacing(from, to) * to - from * ONE,
        ) * LIMIT <= from * ONE,
{
    assert(from * ONE >= 0) by (nonlinear_arith);
    lemma_rounding_is_near(from * ONE, to as int);
}

/// Sample `k` of the output lies `k` times that distance into the input, but for
/// rounding.
pub proof fn law_samples_lie_in_step(k: int, s: int)
    requires
        k >= 0,
        s >= 0,
    ensures
        magnitude(position(k, s) - k * s) * LIMIT <= k * s,
{
    assert(k * s >= 0) by (nonlinear_arith)
        requires
            k >= 0,
            s >= 0,
    ;
    lemma_rounding_is_near(k * s, 1);
}

/// A sample between two others lies on the line that joins them: no further from it
/// than half a step, but for rounding.
pub proof fn law_samples_lie_on_the_line(a: int, b: int, frac: int)
    requires
        -32768 <= a <= 32767,
        -32768 <= b <= 32767,
        0 <= frac < ONE,
    ensures
        2 * magnitude(blend(a, b, frac) * ONE - (a * (ONE - frac) + b * frac)) <= ONE
            + 0x10_0000_0000,
{
    let x = magnitude(b - a);
    let p = x * frac;
    assert(0 <= p <= 65535 * ONE) by (nonlinear_arith)
        requires
            0 <= x <= 65535,
            0 <= frac < ONE,
            p == x * frac,
    ;
    lemma_rounding_is_near(p, 1);
    let near = nearest(p, 1);
    let part = signed(near, b - a);
    let exact = a * ONE + part;
    let line = a * (ONE - frac) + b * frac;
    assert(line == a * ONE + signed(p, b - a)) by (nonlinear_arith)
        requires
            p == x * frac,
            x == magnitude(b - a),
            line == a * (ONE - frac) + b * frac,
    ;
    let d1 = magnitude(near - p);
    assert(d1 <= 0x2_0000_0000);
    assert(magnitude(exact - line) == d1);
    assert(-32768 * ONE <= line <= 32767 * ONE) by (nonlinear_arith)
        requires
            -32768 <= a <= 32767,
            -32768 <= b <= 32767,
            0 <= frac < ONE,
            line == a * (ONE - frac) + b * frac,
    ;
    let m = magnitude(exact);
    lemma_rounding_is_near(m, 1);
    let sum = nearest(m, 1);
    let d2 = magnitude(sum - m);
    assert(m <= 32768 * ONE + 0x2_0000_0000);
    assert(d2 <= 0x1_0000_0001);
    let two = 2 * ONE as int;
    let s = (2 * sum + ONE) / two;
    vstd::arithmetic::div_mod::lemma_fundamental_div_mod(2 * sum + ONE, two);
    assert(0 <= (2 * sum + ONE) % two < two);
    assert(two * s == 2 * (s * ONE)) by (nonlinear_arith)
        requires
            two == 2 * ONE,
    ;
    let t = s * ONE;
    assert(-(ONE as int) <= 2 * t - 2 * sum <= ONE);
    let r = signed(s, exact);
    assert(r * ONE == signed(t, exact)) by (nonlinear_arith)
        requires
            t == s * ONE,
            r == signed(s, exact),
    ;
    assert(2 * magnitude(r * ONE - line) <= ONE + 2 * d1 + 2 * d2);
    let c = clamped(r);
    assert(magnitude(c * ONE - line) <= magnitude(r * ONE - line)) by {
        if r > 32767 {
            assert(r * ONE > 32767 * ONE) by (nonlinear_arith)
                requires
                    r > 32767,
                    ONE > 0,
            ;
        } else if r < -32768 {
            assert(r * ONE < -32768 * ONE) by (nonlinear_arith)
                requires
                    r < -32768,
                    ONE > 0,
            ;
        }
    }
}

/// Each sample of the output is blended from the two frames of the input that it lies
/// between, of its own channel; behind the last frame that one is held.
pub proof fn law_samples_come_from_their_neighbours(
    pcm: Seq<u8>,
    channels: int,
    c: int,
    frames: int,
    k: int,
    s: int,
)
    ensures
        ({
            let at = position(k, s);
            let f = at / ONE as int;
            &&& f + 1 < frames ==> interpolated(pcm, channels, c, frames, k, s) == blend(
                sample_at(pcm, channels, c, f),
                sample_at(pcm, channels, c, f + 1),
                at % ONE as int,
            )
            &&& f + 1 == frames ==> interpolated(pcm, channels, c, frames, k, s) == sample_at(
                pcm,
                channels,
                c,
                f,
            )
        }),
{
    let at = position(k, s);
    let f = at / ONE as int;
    if f + 1 == frames {
        let a = sample_at(pcm, channels, c, f);
        law_steady_audio_stays(a, at % ONE as int);
    }
}

/// Audio lasts as long at the new rate as at the old one, to within one frame.
pub proof fn law_audio_lasts_as_long(frames: int, from: u32, to: u32)
    requires
        frames >= 0,
        from > 0,
    ensures
        new_frames(frames, from, to) * from <= frames * to < (new_frames(frames, from, to) + 1)
            * from,
{
    let n = frames * to;
    let d = from as int;
    vstd::arithmetic::div_mod::lemma_fundamental_div_mod(n, d);
    let q = n / d;
    assert(d * q == q * d) by (nonlinear_arith);
    assert((q + 1) * d == q * d + d) by (nonlinear_arith);
}

} // verus!
