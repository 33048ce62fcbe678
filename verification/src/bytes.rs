//! Numbers in byte order.

use vstd::prelude::*;

verus! {

/// The two bytes as a little-endian number.
pub open spec fn le16(b0: u8, b1: u8) -> u16 {
    (b0 + 256 * b1) as u16
}

/// The four bytes as a little-endian number.
pub open spec fn le32(b0: u8, b1: u8, b2: u8, b3: u8) -> u32 {
    (b0 + 256 * b1 + 65536 * b2 + 16777216 * b3) as u32
}

pub fn read_le16(b0: u8, b1: u8) -> (r: u16)
    ensures
        r == le16(b0, b1),
{
    (b0 as u16) + 256 * (b1 as u16)
}

pub fn read_le32(b0: u8, b1: u8, b2: u8, b3: u8) -> (r: u32)
    ensures
        r == le32(b0, b1, b2, b3),
{
    (b0 as u32) + 256 * (b1 as u32) + 65536 * (b2 as u32) + 16777216 * (b3 as u32)
}

/// The little-endian bytes of a 16-bit number.
pub open spec fn le16_bytes(n: u16) -> Seq<u8> {
    seq![(n % 256) as u8, (n / 256) as u8]
}

/// The little-endian bytes of a 32-bit number.
pub open spec fn le32_bytes(n: u32) -> Seq<u8> {
    seq![
        (n % 256) as u8,
        (n / 256 % 256) as u8,
        (n / 65536 % 256) as u8,
        (n / 16777216) as u8,
    ]
}

pub fn push_le16(out: &mut Vec<u8>, n: u16)
    ensures
        final(out)@ == old(out)@ + le16_bytes(n),
{
    out.push((n % 256) as u8);
    out.push((n / 256) as u8);
    assert(out@ =~= old(out)@ + le16_bytes(n));
}

pub fn push_le32(out: &mut Vec<u8>, n: u32)
    ensures
        final(out)@ == old(out)@ + le32_bytes(n),
{
    out.push((n % 256) as u8);
    out.push((n / 256 % 256) as u8);
    out.push((n / 65536 % 256) as u8);
    out.push((n / 16777216) as u8);
    assert(out@ =~= old(out)@ + le32_bytes(n));
}

/// Reading back the little-endian bytes of a number gives the number.
pub proof fn lemma_le_round_trip(a: u16, b: u32)
    ensures
        le16(le16_bytes(a)[0], le16_bytes(a)[1]) == a,
        le32(le32_bytes(b)[0], le32_bytes(b)[1], le32_bytes(b)[2], le32_bytes(b)[3]) == b,
{
    assert(b == b % 256 + 256 * (b / 256 % 256) + 65536 * (b / 65536 % 256) + 16777216 * (b
        / 16777216)) by (bit_vector);
}

/// The two bytes as a little-endian two's-complement sample.
pub open spec fn sample(b0: u8, b1: u8) -> int {
    let n = b0 + 256 * b1;
    if n >= 32768 {
        n - 65536
    } else {
        n
    }
}

pub fn read_sample(b0: u8, b1: u8) -> (r: i16)
    ensures
        r == sample(b0, b1),
{
    let n: i32 = (b0 as i32) + 256 * (b1 as i32);
    if n >= 32768 {
        (n - 65536) as i16
    } else {
        n as i16
    }
}

/// The little-endian two's-complement bytes of a sample.
pub open spec fn sample_bytes(s: int) -> Seq<u8> {
    let n = if s < 0 {
        s + 65536
    } else {
        s
    };
    seq![(n % 256) as u8, (n / 256) as u8]
}

pub fn push_sample(out: &mut Vec<u8>, s: i16)
    ensures
        final(out)@ == old(out)@ + sample_bytes(s as int),
{
    let n: u32 = if s < 0 {
        ((s as i32) + 65536) as u32
    } else {
        s as u32
    };
    out.push((n % 256) as u8);
    out.push((n / 256) as u8);
    assert(out@ =~= old(out)@ + sample_bytes(s as int));
}

/// The samples of a row of 16-bit little-endian bytes. A last odd byte is left
/// over.
pub open spec fn samples_of(b: Seq<u8>) -> Seq<int> {
    Seq::new((b.len() / 2) as nat, |i: int| sample(b[2 * i], b[2 * i + 1]))
}

pub open spec fn sample_values(s: Seq<i16>) -> Seq<int> {
    s.map_values(|x: i16| x as int)
}

/// The samples of a row of 16-bit little-endian bytes.
pub fn samples_from_le(bytes: &[u8]) -> (r: Vec<i16>)
    ensures
        sample_values(r@) == samples_of(bytes@),
{
    let n: usize = bytes.len() / 2;
    let mut out: Vec<i16> = Vec::new();
    let mut i: usize = 0;
    while i < n
        invariant
            n == bytes.len() / 2,
            i <= n,
            sample_values(out@) == samples_of(bytes@).take(i as int),
        decreases n - i,
    {
        let v = read_sample(bytes[2 * i], bytes[2 * i + 1]);
        let ghost before = sample_values(out@);
        out.push(v);
        assert(sample_values(out@) =~= before.push(v as int));
        assert(sample_values(out@) =~= samples_of(bytes@).take(i + 1));
        i += 1;
    }
    assert(sample_values(out@) =~= samples_of(bytes@));
    out
}

/// A sample that is written reads back as itself, over the whole range of 16 bits.
pub proof fn law_written_samples_read_back(s: int)
    requires
        -32768 <= s <= 32767,
    ensures
        sample_bytes(s).len() == 2,
        sample(sample_bytes(s)[0], sample_bytes(s)[1]) == s,
{
}

/// The samples of a row of bytes are as many as there are pairs, and each is read from
/// its own pair, the low byte first.
pub proof fn law_each_pair_is_a_sample(b: Seq<u8>, i: int)
    requires
        0 <= i < b.len() / 2,
    ensures
        samples_of(b).len() == b.len() / 2,
        -32768 <= samples_of(b)[i] <= 32767,
        (samples_of(b)[i] - b[2 * i]) % 256 == 0,
        (samples_of(b)[i] >= 0 <==> b[2 * i + 1] < 128),
        samples_of(b)[i] >= 0 ==> samples_of(b)[i] / 256 == b[2 * i + 1],
        samples_of(b)[i] < 0 ==> (samples_of(b)[i] + 65536) / 256 == b[2 * i + 1],
{
}

} // verus!
