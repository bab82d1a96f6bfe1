//! Byte formats of sample streams and of the RTL-TCP tuning command.
use vstd::prelude::*;
use vstd::arithmetic::div_mod::lemma_fundamental_div_mod;
use vstd::arithmetic::div_mod::lemma_mod_pos_bound;

verus! {

/// The 16-bit two's complement pattern of `x`, read as an unsigned number.
pub open spec fn u16_pattern(x: i16) -> int {
    if x < 0 {
        x + 0x10000
    } else {
        x as int
    }
}

/// The signed 16-bit value whose little-endian bytes are `lo`, `hi`.
pub open spec fn s16_le(lo: u8, hi: u8) -> int {
    let v = hi * 256 + lo;
    if v >= 0x8000 {
        v - 0x10000
    } else {
        v
    }
}

/// Little-endian bytes of a sequence of 16-bit samples, low byte first.
pub open spec fn i16_le_bytes(s: Seq<i16>) -> Seq<u8> {
    Seq::new(
        2 * s.len(),
        |j: int|
            if j % 2 == 0 {
                (u16_pattern(s[j / 2]) % 256) as u8
            } else {
                (u16_pattern(s[j / 2]) / 256) as u8
            },
    )
}

/// Encodes 16-bit samples as little-endian bytes (the format written to a
/// sound sink).
pub fn encode_i16_le(samples: &[i16]) -> (out: Vec<u8>)
    requires
        2 * samples@.len() <= usize::MAX,
    ensures
        out@ == i16_le_bytes(samples@),
        out@.len() == 2 * samples@.len(),
        forall|i: int|
            0 <= i < samples@.len() ==> #[trigger] out@[2 * i] + 256 * out@[2 * i + 1] == (if samples@[i]
                < 0 {
                samples@[i] + 0x10000
            } else {
                samples@[i] as int
            }),
        forall|i: int|
            0 <= i < samples@.len() ==> #[trigger] s16_le(out@[2 * i], out@[2 * i + 1])
                == samples@[i],
{
    let n = samples.len();
    let mut out: Vec<u8> = Vec::new();
    for i in 0..n
        invariant
            n == samples@.len(),
            out@ =~= i16_le_bytes(samples@.take(i as int)),
    {
        let x = samples[i];
        let lo = (x & 0xff) as u8;
        let hi = (x >> 8) as u8;
        proof {
            assert(lo as int == (if x < 0 { x + 0x10000 } else { x as int }) % 256
                && hi as int == (if x < 0 { x + 0x10000 } else { x as int }) / 256) by (bit_vector)
                requires
                    lo == (x & 0xff) as u8,
                    hi == (x >> 8) as u8,
            ;
        }
        out.push(lo);
        out.push(hi);
        proof {
            let t = samples@.take(i + 1);
            assert(t[i as int] == x);
            assert forall|j: int| 0 <= j < 2 * (i + 1) implies #[trigger] out@[j] == i16_le_bytes(
                t,
            )[j] by {
                if j < 2 * i {
                    assert(samples@.take(i as int)[j / 2] == t[j / 2]);
                }
            }
            assert(out@ =~= i16_le_bytes(t));
        }
    }
    assert(samples@.take(n as int) =~= samples@);
    proof {
        law_i16_le_bytes(samples@);
    }
    out
}

/// Decodes interleaved I/Q samples of 16 bits each, little-endian, four
/// bytes per sample pair.
pub fn decode_iq_s16(bytes: &[u8]) -> (out: Vec<(i32, i32)>)
    requires
        bytes@.len() % 4 == 0,
    ensures
        out@.len() == bytes@.len() / 4,
        forall|k: int|
            0 <= k < out@.len() ==> #[trigger] out@[k].0 == s16_le(bytes@[4 * k], bytes@[4 * k + 1])
                && out@[k].1 == s16_le(bytes@[4 * k + 2], bytes@[4 * k + 3]),
        forall|k: int|
            0 <= k < out@.len() ==> -0x8000 <= #[trigger] out@[k].0 < 0x8000 && -0x8000
                <= out@[k].1 < 0x8000 && (out@[k].0 - (bytes@[4 * k] + 256 * bytes@[4 * k + 1]))
                % 0x10000 == 0 && (out@[k].1 - (bytes@[4 * k + 2] + 256 * bytes@[4 * k + 3]))
                % 0x10000 == 0,
{
    let len = bytes.len();
    let mut out: Vec<(i32, i32)> = Vec::new();
    let mut i: usize = 0;
    while i < len
        invariant
            len == bytes@.len(),
            len % 4 == 0,
            i % 4 == 0,
            i <= len,
            i == 4 * out@.len(),
            forall|j: int|
                0 <= j < out@.len() ==> #[trigger] out@[j].0 == s16_le(
                    bytes@[4 * j],
                    bytes@[4 * j + 1],
                ) && out@[j].1 == s16_le(bytes@[4 * j + 2], bytes@[4 * j + 3]),
        decreases len - i,
    {
        let mut num1: i32 = bytes[i + 1] as i32 * 256 + bytes[i] as i32;
        let mut num2: i32 = bytes[i + 3] as i32 * 256 + bytes[i + 2] as i32;
        if num1 >= 0x8000 {
            num1 -= 0x10000;
        }
        if num2 >= 0x8000 {
            num2 -= 0x10000;
        }
        let ghost k = out@.len() as int;
        out.push((num1, num2));
        proof {
            assert(4 * k == i);
            assert(out@[k].0 == s16_le(bytes@[4 * k], bytes@[4 * k + 1]));
            assert(out@[k].1 == s16_le(bytes@[4 * k + 2], bytes@[4 * k + 3]));
        }
        i = i + 4;
    }
    out
}

/// Splits interleaved 8-bit I/Q bytes into (I, Q) pairs.
pub fn pair_iq_u8(bytes: &[u8]) -> (out: Vec<(u8, u8)>)
    requires
        bytes@.len() % 2 == 0,
    ensures
        out@.len() == bytes@.len() / 2,
        forall|k: int|
            0 <= k < out@.len() ==> #[trigger] out@[k] == (bytes@[2 * k], bytes@[2 * k + 1]),
{
    let len = bytes.len();
    let mut out: Vec<(u8, u8)> = Vec::new();
    let mut i: usize = 0;
    while i < len
        invariant
            len == bytes@.len(),
            len % 2 == 0,
            i % 2 == 0,
            i <= len,
            i == 2 * out@.len(),
            forall|j: int|
                0 <= j < out@.len() ==> #[trigger] out@[j] == (bytes@[2 * j], bytes@[2 * j + 1]),
        decreases len - i,
    {
        out.push((bytes[i], bytes[i + 1]));
        i = i + 2;
    }
    out
}

/// The RTL-TCP command that tunes the receiver to `hz`: opcode 0x01, then
/// the frequency as a big-endian 32-bit number.
pub fn tuner_frequency_command(hz: u32) -> (out: Vec<u8>)
    ensures
        out@.len() == 5,
        out@[0] == 0x01,
        out@[1] * 0x1000000 + out@[2] * 0x10000 + out@[3] * 0x100 + out@[4] == hz,
{
    let b1 = (hz >> 24) as u8;
    let b2 = (hz >> 16) as u8;
    let b3 = (hz >> 8) as u8;
    let b4 = hz as u8;
    assert(b1 * 0x1000000 + b2 * 0x10000 + b3 * 0x100 + b4 == hz) by (bit_vector)
        requires
            b1 == (hz >> 24) as u8,
            b2 == (hz >> 16) as u8,
            b3 == (hz >> 8) as u8,
            b4 == hz as u8,
    ;
    let mut out: Vec<u8> = Vec::new();
    out.push(0x01);
    out.push(b1);
    out.push(b2);
    out.push(b3);
    out.push(b4);
    out
}

/// Decoding reads back what encoding wrote: the 16-bit samples `s`,
/// encoded little-endian and decoded as I/Q pairs, are the pairs
/// `(s[2k], s[2k+1])`.
pub proof fn law_s16_roundtrip(s: Seq<i16>)
    requires
        s.len() % 2 == 0,
    ensures
        i16_le_bytes(s).len() % 4 == 0,
        forall|k: int|
            0 <= k < s.len() / 2 ==> s16_le(
                #[trigger] i16_le_bytes(s)[4 * k],
                i16_le_bytes(s)[4 * k + 1],
            ) == s[2 * k] && s16_le(i16_le_bytes(s)[4 * k + 2], i16_le_bytes(s)[4 * k + 3]) == s[2
                * k + 1],
{
    let b = i16_le_bytes(s);
    assert forall|k: int| 0 <= k < s.len() / 2 implies s16_le(
        #[trigger] b[4 * k],
        b[4 * k + 1],
    ) == s[2 * k] && s16_le(b[4 * k + 2], b[4 * k + 3]) == s[2 * k + 1] by {
        assert((4 * k) / 2 == 2 * k && (4 * k + 1) / 2 == 2 * k && (4 * k + 2) / 2 == 2 * k + 1
            && (4 * k + 3) / 2 == 2 * k + 1);
        assert((4 * k) % 2 == 0 && (4 * k + 1) % 2 == 1 && (4 * k + 2) % 2 == 0 && (4 * k + 3) % 2
            == 1);
        lemma_pattern_roundtrip(s[2 * k]);
        lemma_pattern_roundtrip(s[2 * k + 1]);
    }
}

/// The low and high byte of a 16-bit pattern decode back to the sample.
/// The little-endian bytes of every sample, odd counts included: the low
/// byte plus 256 times the high byte is the sample's 16-bit two's
/// complement pattern, and the bytes read back as a signed 16-bit value
/// give the sample.
pub proof fn law_i16_le_bytes(s: Seq<i16>)
    ensures
        i16_le_bytes(s).len() == 2 * s.len(),
        forall|i: int|
            0 <= i < s.len() ==> #[trigger] i16_le_bytes(s)[2 * i] + 256 * i16_le_bytes(s)[2 * i
                + 1] == (if s[i] < 0 {
                s[i] + 0x10000
            } else {
                s[i] as int
            }),
        forall|i: int|
            0 <= i < s.len() ==> ({
                let v = i16_le_bytes(s)[2 * i + 1] * 256 + #[trigger] i16_le_bytes(s)[2 * i];
                (if v >= 0x8000 {
                    v - 0x10000
                } else {
                    v
                }) == s[i]
            }),
{
    let b = i16_le_bytes(s);
    assert forall|i: int| 0 <= i < s.len() implies #[trigger] b[2 * i] + 256 * b[2 * i + 1] == (
    if s[i] < 0 {
        s[i] + 0x10000
    } else {
        s[i] as int
    }) && ({
        let v = b[2 * i + 1] * 256 + b[2 * i];
        (if v >= 0x8000 {
            v - 0x10000
        } else {
            v
        }) == s[i]
    }) by {
        assert((2 * i) / 2 == i && (2 * i + 1) / 2 == i);
        assert((2 * i) % 2 == 0 && (2 * i + 1) % 2 == 1);
        let u = u16_pattern(s[i]);
        lemma_fundamental_div_mod(u, 256);
        lemma_mod_pos_bound(u, 256);
        lemma_pattern_roundtrip(s[i]);
    }
}

proof fn lemma_pattern_roundtrip(x: i16)
    ensures
        s16_le((u16_pattern(x) % 256) as u8, (u16_pattern(x) / 256) as u8) == x,
{
    let u = u16_pattern(x);
    lemma_fundamental_div_mod(u, 256);
    lemma_mod_pos_bound(u, 256);
    assert(0 <= u / 256 < 256);
}

} // verus!
