//! What holds across calls of the library.
//!
//! The hashers' contracts speak of the message absorbed so far: `new`
//! starts from the empty message, `update` appends its input and
//! `finalize` returns [`blake2b_state_bytes`] of the message (the engine)
//! or [`blake2b`] of it at 24 bytes (the headline API and `hash`). The laws
//! below are stated over those same functions.
use vstd::prelude::*;

use vstd::arithmetic::div_mod::{
    lemma_fundamental_div_mod, lemma_fundamental_div_mod_converse, lemma_mod_breakdown, lemma_mod_mod,
};

use crate::engine::{law_state_determined_by_message, Blake2bCore};
use crate::spec::{
    absorb, blake2b, blake2b_state_bytes, buffered_len, compress, compressed_len, counter_hi,
    counter_lo, counter_value, final_h, init_work, initial_h, msg_words, pad_block, param_word,
    rounds, state_counter, valid_digest_len, word_modulus, IV,
};

verus! {

/// Streaming equals one-shot: if a hasher starts from the empty message
/// (as `new` leaves it) and `views[i + 1]` is what `update` leaves after
/// absorbing `chunks[i]` into `views[i]`, then after the last chunk the
/// hasher holds the concatenation of the chunks, whatever the chunking, so
/// finalizing gives the one-shot digest of the concatenated input.
pub proof fn law_streaming_matches_one_shot(chunks: Seq<Seq<u8>>, views: Seq<Seq<u8>>, nn: nat)
    requires
        views.len() == chunks.len() + 1,
        views[0] == Seq::<u8>::empty(),
        forall|i: int| 0 <= i < chunks.len() ==> #[trigger] views[i + 1] == views[i] + chunks[i],
    ensures
        views.last() == chunks.flatten(),
        blake2b(views.last(), nn) == blake2b(chunks.flatten(), nn),
        blake2b_state_bytes(views.last(), nn) == blake2b_state_bytes(chunks.flatten(), nn),
    decreases chunks.len(),
{
    if chunks.len() == 0 {
        assert(chunks.flatten() =~= Seq::<u8>::empty());
    } else {
        let n = chunks.len() - 1;
        let front = chunks.drop_last();
        let vfront = views.drop_last();
        assert forall|i: int| 0 <= i < front.len() implies #[trigger] vfront[i + 1] == vfront[i]
            + front[i] by {
            assert(views[i + 1] == views[i] + chunks[i]);
        }
        law_streaming_matches_one_shot(front, vfront, nn);
        assert(views[n + 1] == views[n] + chunks[n]);
        assert(front.push(chunks[n]) =~= chunks);
        front.lemma_flatten_push(chunks[n]);
    }
}

/// Empty updates are no-ops: absorbing an empty input anywhere in the
/// stream leaves the absorbed message, hence the digest, unchanged.
pub proof fn law_empty_update_is_noop(view: Seq<u8>, nn: nat)
    ensures
        view + Seq::<u8>::empty() == view,
        blake2b(view + Seq::<u8>::empty(), nn) == blake2b(view, nn),
{
    assert(view + Seq::<u8>::empty() =~= view);
}

/// A digest of length `nn` is the first `nn` bytes of what the engine's
/// `finalize` returns; at 24 bytes the engine computes exactly the
/// headline function `hash`.
pub proof fn law_digest_is_prefix_of_state(m: Seq<u8>, nn: nat)
    requires
        1 <= nn <= 64,
    ensures
        blake2b(m, nn) == blake2b_state_bytes(m, nn).take(nn as int),
        blake2b(m, nn).len() == nn,
        blake2b_state_bytes(m, nn).len() == 64,
{
}

/// The initial chaining value for digest length `nn` is the IV with the
/// parameter word `0x0101_0000 ^ nn` (digest length `nn`, key length 0,
/// fanout 1, depth 1) folded into its first word, and the IV elsewhere.
pub proof fn law_initial_state(nn: nat)
    requires
        1 <= nn <= 64,
    ensures
        initial_h(nn).len() == 8,
        initial_h(nn)[0] == IV[0] ^ param_word(nn),
        param_word(nn) == 0x0101_0000 + nn,
        forall|i: int| 1 <= i < 8 ==> #[trigger] initial_h(nn)[i] == IV[i],
{
    let w = nn as u64;
    assert(0x0101_0000u64 ^ w == 0x0101_0000u64 + w) by (bit_vector)
        requires
            w <= 64,
    ;
}

/// The byte counter is a 128-bit integer that wraps: advancing its two
/// words by `n` yields the words of `(value + n) mod 2^128`.
pub proof fn law_counter_wraps_at_2_128(lo: u64, hi: u64, n: nat)
    ensures
        counter_value(
            counter_lo(counter_value(lo, hi) + n),
            counter_hi(counter_value(lo, hi) + n),
        ) == (counter_value(lo, hi) + n) as int % (word_modulus() * word_modulus()),
{
    let m = word_modulus();
    let x = (counter_value(lo, hi) + n) as int;
    let a = x / m;
    let r = x % m;
    let b = a / m;
    let s = a % m;
    lemma_fundamental_div_mod(x, m);
    lemma_fundamental_div_mod(a, m);
    assert(x == b * (m * m) + (s * m + r)) by (nonlinear_arith)
        requires
            x == m * a + r,
            a == m * b + s,
    ;
    assert(0 <= s * m + r < m * m) by (nonlinear_arith)
        requires
            0 <= s < m,
            0 <= r < m,
            m == 0x1_0000_0000_0000_0000int,
    ;
    lemma_fundamental_div_mod_converse(x, m * m, b, s * m + r);
}

/// An empty message compresses one all-zero block, with the counter at
/// zero and the final-block flag set (RFC 7693 §3.3, dd = 1).
pub proof fn law_empty_message_is_one_zero_block(nn: nat)
    ensures
        final_h(Seq::<u8>::empty(), nn) == compress(
            initial_h(nn),
            Seq::new(128, |i: int| 0u8),
            0,
            0,
            true,
        ),
{
    assert(pad_block(Seq::<u8>::empty()) =~= Seq::new(128, |i: int| 0u8));
}

/// A message that ends on a block boundary has its last whole block
/// compressed as the final block, with the counter at the message length:
/// a full block is never followed by an empty padding block.
pub proof fn law_last_full_block_is_final(h: Seq<u64>, blk: Seq<u8>, t: nat)
    requires
        blk.len() == 128,
    ensures
        absorb(h, blk, t) == compress(h, blk, counter_lo(t + 128), counter_hi(t + 128), true),
{
    assert(pad_block(blk) =~= blk);
}

/// Two updates reach the same engine state as one update on their
/// concatenation: if `one` holds `m` then `x` then `y` and `two` holds `m`
/// then `x + y`, at the same digest length, the two engines are equal field
/// for field, and so are whatever further identical updates and
/// `finalize` make of them.
pub proof fn law_two_updates_equal_one(
    one: Blake2bCore,
    two: Blake2bCore,
    m: Seq<u8>,
    x: Seq<u8>,
    y: Seq<u8>,
)
    requires
        one.holds_state_of_message(),
        two.holds_state_of_message(),
        one.digest_len() == two.digest_len(),
        one.message() == m + x + y,
        two.message() == m + (x + y),
    ensures
        one == two,
{
    assert(m + x + y =~= m + (x + y));
    law_state_determined_by_message(one, two);
}

/// After a message of fewer than 2^64 bytes the engine holds back
/// `(len - 1) % 128 + 1` bytes (none for the empty message), and its
/// counter is the number of the other bytes in the low word with a zero
/// high word.
pub proof fn law_state_counter_below_2_64(m: Seq<u8>)
    requires
        m.len() < word_modulus(),
    ensures
        buffered_len(m.len()) == if m.len() == 0 {
            0
        } else {
            (m.len() - 1) as int % 128 + 1
        },
        compressed_len(m.len()) % 128 == 0,
        state_counter(m) == (compressed_len(m.len()) as u64, 0u64),
{
    let l = m.len();
    let c = compressed_len(l);
    if l > 0 {
        lemma_fundamental_div_mod(l - 1, 128);
        lemma_fundamental_div_mod_converse(c as int, 128, (l - 1) / 128, 0);
    }
    lemma_fundamental_div_mod_converse(c as int, word_modulus(), 0, c as int);
}

/// The digest lengths that BLAKE2b's parameter block admits are exactly
/// 1 to 64 bytes.
pub proof fn law_digest_lengths_1_to_64(n: int)
    ensures
        valid_digest_len(n) <==> (1 <= n && n <= 64),
{
}

/// The working vector that the compression function F starts from (RFC 7693
/// §3.2): the eight chaining words, then the eight IV words, with the whole
/// low counter word xored into word 12, the whole high counter word into
/// word 13, and word 14 inverted for the final block; F returns
/// `h[i] ^ v[i] ^ v[i + 8]` of the working vector after twelve rounds.
pub proof fn law_compress_working_vector(
    h: Seq<u64>,
    block: Seq<u8>,
    t_lo: u64,
    t_hi: u64,
    last: bool,
)
    requires
        h.len() == 8,
    ensures
        ({
            let w = seq![
                h[0],
                h[1],
                h[2],
                h[3],
                h[4],
                h[5],
                h[6],
                h[7],
                0x6a09_e667_f3bc_c908u64,
                0xbb67_ae85_84ca_a73bu64,
                0x3c6e_f372_fe94_f82bu64,
                0xa54f_f53a_5f1d_36f1u64,
                0x510e_527f_ade6_82d1u64 ^ t_lo,
                0x9b05_688c_2b3e_6c1fu64 ^ t_hi,
                if last {
                    !0x1f83_d9ab_fb41_bd6bu64
                } else {
                    0x1f83_d9ab_fb41_bd6bu64
                },
                0x5be0_cd19_137e_2179u64,
            ];
            let v = rounds(w, msg_words(block), 12);
            compress(h, block, t_lo, t_hi, last) == Seq::new(8, |i: int| h[i] ^ (v[i] ^ v[i + 8]))
        }),
{
    reveal(compress);
    let w = seq![
        h[0],
        h[1],
        h[2],
        h[3],
        h[4],
        h[5],
        h[6],
        h[7],
        0x6a09_e667_f3bc_c908u64,
        0xbb67_ae85_84ca_a73bu64,
        0x3c6e_f372_fe94_f82bu64,
        0xa54f_f53a_5f1d_36f1u64,
        0x510e_527f_ade6_82d1u64 ^ t_lo,
        0x9b05_688c_2b3e_6c1fu64 ^ t_hi,
        if last {
            !0x1f83_d9ab_fb41_bd6bu64
        } else {
            0x1f83_d9ab_fb41_bd6bu64
        },
        0x5be0_cd19_137e_2179u64,
    ];
    assert(init_work(h, t_lo, t_hi, last) =~= w);
}

/// The two counter words after `t` bytes, for every `t` below 2^128, are
/// the low and high 64 bits of `t`.
pub proof fn law_counter_words_of_count(t: nat)
    requires
        t < 0x1_0000_0000_0000_0000_0000_0000_0000_0000int,
    ensures
        counter_lo(t) as int + counter_hi(t) as int * 0x1_0000_0000_0000_0000int == t,
{
    let m = word_modulus();
    lemma_fundamental_div_mod(t as int, m);
    let q = t as int / m;
    assert(q < m) by (nonlinear_arith)
        requires
            t as int == m * q + t as int % m,
            0 <= t as int % m,
            t < m * m,
            m > 0,
    ;
    lemma_fundamental_div_mod_converse(q, m, 0, q);
}

/// The counter words for a byte count `t` are the low and high 64 bits of
/// `t` modulo 2^128.
proof fn lemma_counter_words_mod(t: nat)
    ensures
        counter_lo(t) as int == (t as int % 0x1_0000_0000_0000_0000_0000_0000_0000_0000int)
            % 0x1_0000_0000_0000_0000int,
        counter_hi(t) as int == (t as int % 0x1_0000_0000_0000_0000_0000_0000_0000_0000int)
            / 0x1_0000_0000_0000_0000int,
{
    let m = 0x1_0000_0000_0000_0000int;
    assert(m * m == 0x1_0000_0000_0000_0000_0000_0000_0000_0000int);
    lemma_mod_mod(t as int, m, m);
    lemma_mod_breakdown(t as int, m, m);
    let c = t as int % (m * m);
    let q = (t as int / m) % m;
    let r = t as int % m;
    assert(c == m * q + r);
    lemma_fundamental_div_mod_converse(c, m, q, r);
}

/// Processing a message longer than one block after `t` earlier bytes:
/// its first 128 bytes are compressed as a non-final block with the counter
/// at `t + 128` (modulo 2^128, as low and high 64-bit words), and the rest
/// is processed after `t + 128` bytes.
pub proof fn law_absorb_first_block(h: Seq<u64>, m: Seq<u8>, t: nat)
    requires
        m.len() > 128,
    ensures
        ({
            let c = (t + 128) as int % 0x1_0000_0000_0000_0000_0000_0000_0000_0000int;
            absorb(h, m, t) == absorb(
                compress(
                    h,
                    m.take(128),
                    (c % 0x1_0000_0000_0000_0000int) as u64,
                    (c / 0x1_0000_0000_0000_0000int) as u64,
                    false,
                ),
                m.skip(128),
                t + 128,
            )
        }),
{
    lemma_counter_words_mod(t + 128);
}

/// The last (or only) part of a message, at most one block, after `t`
/// earlier bytes: it is zero-padded to 128 bytes and compressed as the
/// final block with the counter at `t` plus its own length (modulo 2^128,
/// as low and high 64-bit words); an empty message is one all-zero block.
pub proof fn law_absorb_last_block(h: Seq<u64>, m: Seq<u8>, t: nat, blk: Seq<u8>)
    requires
        m.len() <= 128,
        blk.len() == 128,
        blk.take(m.len() as int) == m,
        forall|i: int| m.len() <= i < 128 ==> blk[i] == 0,
    ensures
        ({
            let c = (t + m.len()) as int % 0x1_0000_0000_0000_0000_0000_0000_0000_0000int;
            absorb(h, m, t) == compress(
                h,
                blk,
                (c % 0x1_0000_0000_0000_0000int) as u64,
                (c / 0x1_0000_0000_0000_0000int) as u64,
                true,
            )
        }),
{
    lemma_counter_words_mod(t + m.len());
    assert(pad_block(m) =~= blk) by {
        assert forall|i: int| 0 <= i < m.len() implies blk[i] == m[i] by {
            assert(blk.take(m.len() as int)[i] == blk[i]);
        }
    }
}

/// The initial chaining values, word by word: the IV (the SHA-512 IV) with
/// `0x0101_0000 + nn` xored into the first word.
pub proof fn law_initial_words(nn: nat)
    requires
        1 <= nn <= 64,
    ensures
        initial_h(nn) == seq![
            0x6a09_e667_f3bc_c908u64 ^ (0x0101_0000u64 + nn as u64) as u64,
            0xbb67_ae85_84ca_a73bu64,
            0x3c6e_f372_fe94_f82bu64,
            0xa54f_f53a_5f1d_36f1u64,
            0x510e_527f_ade6_82d1u64,
            0x9b05_688c_2b3e_6c1fu64,
            0x1f83_d9ab_fb41_bd6bu64,
            0x5be0_cd19_137e_2179u64,
        ],
{
    law_initial_state(nn);
    assert(initial_h(nn) =~= seq![
        0x6a09_e667_f3bc_c908u64 ^ (0x0101_0000u64 + nn as u64) as u64,
        0xbb67_ae85_84ca_a73bu64,
        0x3c6e_f372_fe94_f82bu64,
        0xa54f_f53a_5f1d_36f1u64,
        0x510e_527f_ade6_82d1u64,
        0x9b05_688c_2b3e_6c1fu64,
        0x1f83_d9ab_fb41_bd6bu64,
        0x5be0_cd19_137e_2179u64,
    ]);
}

} // verus!
