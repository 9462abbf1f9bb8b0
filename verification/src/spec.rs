//! The mathematical model of unkeyed, sequential BLAKE2b (RFC 7693).
//!
//! Everything here is ghost: words are `u64`, the chaining value and the
//! working vector are sequences of words, messages are sequences of bytes.
//! The executable engine is proved to compute exactly these functions.
use vstd::prelude::*;

verus! {

/// BLAKE2b block size in bytes (RFC 7693 §2.1, "bb").
pub const BLOCK_LEN: usize = 128;

/// BLAKE2b initialization vector (RFC 7693 §2.6): the same constants as the
/// SHA-512 IV.
pub const IV: [u64; 8] = [
    0x6a09_e667_f3bc_c908u64,
    0xbb67_ae85_84ca_a73bu64,
    0x3c6e_f372_fe94_f82bu64,
    0xa54f_f53a_5f1d_36f1u64,
    0x510e_527f_ade6_82d1u64,
    0x9b05_688c_2b3e_6c1fu64,
    0x1f83_d9ab_fb41_bd6bu64,
    0x5be0_cd19_137e_2179u64,
];

/// Message word schedule (RFC 7693 §2.7). BLAKE2b runs 12 rounds; round `i`
/// uses row `SIGMA[i % 10]`.
pub const SIGMA: [[usize; 16]; 10] = [
    [0, 1, 2, 3, 4, 5, 6, 7, 8, 9, 10, 11, 12, 13, 14, 15],
    [14, 10, 4, 8, 9, 15, 13, 6, 1, 12, 0, 2, 11, 7, 5, 3],
    [11, 8, 12, 0, 5, 2, 15, 13, 10, 14, 3, 6, 7, 1, 9, 4],
    [7, 9, 3, 1, 13, 12, 11, 14, 2, 6, 5, 10, 4, 0, 15, 8],
    [9, 0, 5, 7, 2, 4, 10, 15, 14, 1, 11, 12, 6, 8, 3, 13],
    [2, 12, 6, 10, 0, 11, 8, 3, 4, 13, 7, 5, 15, 14, 1, 9],
    [12, 5, 1, 15, 14, 13, 4, 10, 0, 7, 6, 3, 9, 2, 8, 11],
    [13, 11, 7, 14, 12, 1, 3, 9, 5, 0, 15, 4, 8, 6, 2, 10],
    [6, 15, 14, 9, 11, 3, 0, 8, 12, 2, 13, 7, 1, 4, 10, 5],
    [10, 2, 8, 4, 7, 6, 1, 5, 15, 11, 9, 14, 3, 12, 13, 0],
];

/// 2^64, the modulus of word arithmetic.
pub open spec fn word_modulus() -> int {
    0x1_0000_0000_0000_0000
}

/// Addition of two words modulo 2^64.
pub open spec fn wadd(x: u64, y: u64) -> u64 {
    ((x as int + y as int) % word_modulus()) as u64
}

/// Rotation of a word right by `n` bits, 0 < n < 64.
pub open spec fn rotr(x: u64, n: u64) -> u64 {
    (x >> n) | (x << ((64 - n) as u64))
}

/// The mixing function G (RFC 7693 §3.1) on the working vector `v`.
pub open spec fn mix(v: Seq<u64>, a: int, b: int, c: int, d: int, x: u64, y: u64) -> Seq<u64> {
    let v1 = v.update(a, wadd(wadd(v[a], v[b]), x));
    let v2 = v1.update(d, rotr(v1[d] ^ v1[a], 32));
    let v3 = v2.update(c, wadd(v2[c], v2[d]));
    let v4 = v3.update(b, rotr(v3[b] ^ v3[c], 24));
    let v5 = v4.update(a, wadd(wadd(v4[a], v4[b]), y));
    let v6 = v5.update(d, rotr(v5[d] ^ v5[a], 16));
    let v7 = v6.update(c, wadd(v6[c], v6[d]));
    v7.update(b, rotr(v7[b] ^ v7[c], 63))
}

/// Message word `k` of the schedule row used by round `r`.
pub open spec fn sched(m: Seq<u64>, r: int, k: int) -> u64 {
    m[SIGMA[r % 10][k] as int]
}

/// One round of the compression function: four column mixes, then four
/// diagonal mixes.
pub open spec fn round(v: Seq<u64>, m: Seq<u64>, r: int) -> Seq<u64> {
    let v1 = mix(v, 0, 4, 8, 12, sched(m, r, 0), sched(m, r, 1));
    let v2 = mix(v1, 1, 5, 9, 13, sched(m, r, 2), sched(m, r, 3));
    let v3 = mix(v2, 2, 6, 10, 14, sched(m, r, 4), sched(m, r, 5));
    let v4 = mix(v3, 3, 7, 11, 15, sched(m, r, 6), sched(m, r, 7));
    let v5 = mix(v4, 0, 5, 10, 15, sched(m, r, 8), sched(m, r, 9));
    let v6 = mix(v5, 1, 6, 11, 12, sched(m, r, 10), sched(m, r, 11));
    let v7 = mix(v6, 2, 7, 8, 13, sched(m, r, 12), sched(m, r, 13));
    mix(v7, 3, 4, 9, 14, sched(m, r, 14), sched(m, r, 15))
}

/// The first `n` rounds applied to `v`.
pub open spec fn rounds(v: Seq<u64>, m: Seq<u64>, n: nat) -> Seq<u64>
    decreases n,
{
    if n == 0 {
        v
    } else {
        round(rounds(v, m, (n - 1) as nat), m, n - 1)
    }
}

/// The little-endian word at byte offset `off` of `b` (RFC 7693 §2.4).
pub open spec fn load_le64(b: Seq<u8>, off: int) -> u64 {
    (b[off] as u64) | ((b[off + 1] as u64) << 8u64) | ((b[off + 2] as u64) << 16u64) | ((b[off
        + 3] as u64) << 24u64) | ((b[off + 4] as u64) << 32u64) | ((b[off + 5] as u64) << 40u64)
        | ((b[off + 6] as u64) << 48u64) | ((b[off + 7] as u64) << 56u64)
}

/// The sixteen message words of a 128-byte block.
pub open spec fn msg_words(block: Seq<u8>) -> Seq<u64> {
    Seq::new(16, |i: int| load_le64(block, 8 * i))
}

/// The working vector at the start of compression: the chaining value, the
/// IV, the counter folded into words 12 and 13 and, for the final block,
/// word 14 inverted.
pub open spec fn init_work(h: Seq<u64>, t_lo: u64, t_hi: u64, last: bool) -> Seq<u64> {
    let v = h + IV@;
    let v1 = v.update(12, v[12] ^ t_lo).update(13, v[13] ^ t_hi);
    if last {
        v1.update(14, !v1[14])
    } else {
        v1
    }
}

/// The compression function F (RFC 7693 §3.2) with a 128-bit counter given
/// as its low and high words.
#[verifier::opaque]
pub open spec fn compress(h: Seq<u64>, block: Seq<u8>, t_lo: u64, t_hi: u64, last: bool) -> Seq<
    u64,
> {
    let v = rounds(init_work(h, t_lo, t_hi, last), msg_words(block), 12);
    Seq::new(8, |i: int| h[i] ^ (v[i] ^ v[i + 8]))
}

/// Low word of the byte counter after `t` bytes (the counter is 128 bits
/// wide and wraps).
pub open spec fn counter_lo(t: nat) -> u64 {
    (t as int % word_modulus()) as u64
}

/// High word of the byte counter after `t` bytes.
pub open spec fn counter_hi(t: nat) -> u64 {
    ((t as int / word_modulus()) % word_modulus()) as u64
}

/// The value of a counter held as two words.
pub open spec fn counter_value(lo: u64, hi: u64) -> nat {
    (hi as nat) * (word_modulus() as nat) + lo as nat
}

/// A final block: the remaining bytes followed by zeros up to 128 bytes.
pub open spec fn pad_block(m: Seq<u8>) -> Seq<u8> {
    m + Seq::new((128 - m.len()) as nat, |i: int| 0u8)
}

/// Processes message `m` from chaining value `h` after `t` earlier bytes:
/// every block but the last is compressed as non-final; the last one (which
/// may be short or, for an empty message, empty) is padded and compressed
/// with the final-block flag and the exact byte count (RFC 7693 §3.3).
pub open spec fn absorb(h: Seq<u64>, m: Seq<u8>, t: nat) -> Seq<u64>
    decreases m.len(),
{
    if m.len() <= 128 {
        compress(h, pad_block(m), counter_lo(t + m.len()), counter_hi(t + m.len()), true)
    } else {
        absorb(
            compress(h, m.take(128), counter_lo(t + 128), counter_hi(t + 128), false),
            m.skip(128),
            t + 128,
        )
    }
}

/// Compresses the whole 128-byte blocks at the front of `m` as non-final
/// blocks, after `t` earlier bytes.
pub open spec fn absorb_blocks(h: Seq<u64>, m: Seq<u8>, t: nat) -> Seq<u64>
    decreases m.len(),
{
    if m.len() < 128 {
        h
    } else {
        absorb_blocks(
            compress(h, m.take(128), counter_lo(t + 128), counter_hi(t + 128), false),
            m.skip(128),
            t + 128,
        )
    }
}

/// The parameter word mixed into `h[0]` for digest length `nn`, key length
/// 0, fanout 1 and depth 1.
pub open spec fn param_word(nn: nat) -> u64 {
    0x0101_0000u64 ^ (nn as u64)
}

/// The initial chaining value for digest length `nn`.
pub open spec fn initial_h(nn: nat) -> Seq<u64> {
    IV@.update(0, IV[0] ^ param_word(nn))
}

/// The final chaining value for message `m` at digest length `nn`.
pub open spec fn final_h(m: Seq<u8>, nn: nat) -> Seq<u64> {
    absorb(initial_h(nn), m, 0)
}

/// Little-endian serialization of eight words into 64 bytes.
pub open spec fn le_bytes(h: Seq<u64>) -> Seq<u8> {
    Seq::new(64, |j: int| (h[j / 8] >> ((8 * (j % 8)) as u64)) as u8)
}

/// The full 64-byte output state of BLAKE2b at digest length `nn` on `m`.
pub open spec fn blake2b_state_bytes(m: Seq<u8>, nn: nat) -> Seq<u8> {
    le_bytes(final_h(m, nn))
}

/// BLAKE2b with an `nn`-byte digest of `m`: the first `nn` bytes of the
/// output state.
pub open spec fn blake2b(m: Seq<u8>, nn: nat) -> Seq<u8> {
    blake2b_state_bytes(m, nn).take(nn as int)
}

/// How many of `total` absorbed bytes a streaming hasher holds back
/// uncompressed: the last block, full or not, since only more input shows
/// that it is not the final one; nothing when nothing was absorbed.
pub open spec fn buffered_len(total: nat) -> nat {
    if total == 0 {
        0
    } else {
        ((total - 1) as int % 128 + 1) as nat
    }
}

/// How many of `total` absorbed bytes a streaming hasher has compressed:
/// a whole number of blocks.
pub open spec fn compressed_len(total: nat) -> nat {
    (total - buffered_len(total)) as nat
}

/// The block a streaming hasher last compressed after the first `c` bytes
/// of `m` (all zeros when it has compressed none): what its buffer holds
/// beyond the pending bytes.
pub open spec fn stale_block(m: Seq<u8>, c: nat) -> Seq<u8> {
    if c == 0 {
        Seq::new(128, |i: int| 0u8)
    } else {
        m.subrange(c - 128, c as int)
    }
}

/// The 128-byte buffer of a streaming hasher that has compressed the first
/// `c` bytes of `m`: the pending bytes, then the rest of the block it last
/// compressed.
pub open spec fn buffer_image(m: Seq<u8>, c: nat) -> Seq<u8> {
    m.skip(c as int) + stale_block(m, c).skip(m.len() - c)
}

/// The chaining value of a streaming hasher at digest length `nn` that has
/// absorbed `m`.
pub open spec fn state_chain(m: Seq<u8>, nn: nat) -> Seq<u64> {
    absorb_blocks(initial_h(nn), m.take(compressed_len(m.len()) as int), 0)
}

/// The counter words (low, high) of a streaming hasher that has absorbed
/// `m`.
pub open spec fn state_counter(m: Seq<u8>) -> (u64, u64) {
    (counter_lo(compressed_len(m.len())), counter_hi(compressed_len(m.len())))
}

/// The buffer of a streaming hasher that has absorbed `m`.
pub open spec fn state_buffer(m: Seq<u8>) -> Seq<u8> {
    buffer_image(m, compressed_len(m.len()))
}

/// Digest lengths that BLAKE2b's parameter block admits.
pub open spec fn valid_digest_len(nn: int) -> bool {
    1 <= nn <= 64
}

} // verus!
