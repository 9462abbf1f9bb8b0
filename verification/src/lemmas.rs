//! Facts about the model of `spec` that the engine's proofs rest on.
use vstd::prelude::*;

use vstd::arithmetic::div_mod::{lemma_fundamental_div_mod, lemma_fundamental_div_mod_converse};

use crate::spec::{absorb, absorb_blocks, compress, counter_hi, counter_lo, counter_value, word_modulus};

verus! {

/// Splitting a message after a whole number of blocks: the blocks in front
/// are absorbed as non-final blocks and the rest is processed from there.
pub proof fn lemma_absorb_split(h: Seq<u64>, m: Seq<u8>, r: Seq<u8>, t: nat)
    requires
        m.len() % 128 == 0,
        r.len() >= 1 || m.len() == 0,
    ensures
        absorb(h, m + r, t) == absorb(absorb_blocks(h, m, t), r, t + m.len()),
    decreases m.len(),
{
    if m.len() == 0 {
        assert(m + r =~= r);
    } else {
        let h1 = compress(h, m.take(128), counter_lo(t + 128), counter_hi(t + 128), false);
        assert((m + r).take(128) =~= m.take(128));
        assert((m + r).skip(128) =~= m.skip(128) + r);
        lemma_absorb_split(h1, m.skip(128), r, t + 128);
    }
}

/// Absorbing one more whole block after a whole number of blocks.
pub proof fn lemma_absorb_blocks_push(h: Seq<u64>, m: Seq<u8>, blk: Seq<u8>, t: nat)
    requires
        m.len() % 128 == 0,
        blk.len() == 128,
    ensures
        absorb_blocks(h, m + blk, t) == compress(
            absorb_blocks(h, m, t),
            blk,
            counter_lo(t + m.len() + 128),
            counter_hi(t + m.len() + 128),
            false,
        ),
    decreases m.len(),
{
    if m.len() == 0 {
        assert(m + blk =~= blk);
        assert(blk.take(128) =~= blk);
        let h1 = compress(h, blk, counter_lo(t + 128), counter_hi(t + 128), false);
        assert(absorb_blocks(h1, blk.skip(128), t + 128) == h1);
        assert(absorb_blocks(h, blk, t) == absorb_blocks(h1, blk.skip(128), t + 128));
    } else {
        assert(m.len() >= 128);
        assert(m.skip(128).len() % 128 == 0);
        let h1 = compress(h, m.take(128), counter_lo(t + 128), counter_hi(t + 128), false);
        assert((m + blk).take(128) =~= m.take(128));
        assert((m + blk).skip(128) =~= m.skip(128) + blk);
        lemma_absorb_blocks_push(h1, m.skip(128), blk, t + 128);
    }
}

/// The two words of the counter after `c` bytes encode `c` modulo 2^128, so
/// advancing them by `n` gives the words of the counter after `c + n` bytes.
pub proof fn lemma_counter_advance(c: nat, n: nat)
    ensures
        counter_lo(counter_value(counter_lo(c), counter_hi(c)) + n) == counter_lo(c + n),
        counter_hi(counter_value(counter_lo(c), counter_hi(c)) + n) == counter_hi(c + n),
{
    let m = word_modulus();
    let lo = c as int % m;
    let a = c as int / m;
    let hi = a % m;
    let b = a / m;
    lemma_fundamental_div_mod(c as int, m);
    lemma_fundamental_div_mod(a, m);
    assert(c == a * m + lo);
    assert(a == b * m + hi);
    let v = hi * m + lo;
    assert(counter_value(counter_lo(c), counter_hi(c)) == v);
    let q1 = (v + n) / m;
    let r1 = (v + n) % m;
    lemma_fundamental_div_mod(v + n, m);
    assert(v + n == q1 * m + r1);
    assert(c + n == (b * m + q1) * m + r1) by (nonlinear_arith)
        requires
            c == a * m + lo,
            a == b * m + hi,
            v == hi * m + lo,
            v + n == q1 * m + r1,
    ;
    lemma_fundamental_div_mod_converse((c + n) as int, m, b * m + q1, r1);
    let q2 = q1 / m;
    let r2 = q1 % m;
    lemma_fundamental_div_mod(q1, m);
    assert(q1 == q2 * m + r2);
    assert(b * m + q1 == (b + q2) * m + r2) by (nonlinear_arith)
        requires
            q1 == q2 * m + r2,
    ;
    lemma_fundamental_div_mod_converse(b * m + q1, m, b + q2, r2);
}

} // verus!
