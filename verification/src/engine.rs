//! The BLAKE2b engine: unkeyed, sequential BLAKE2b with a runtime digest
//! length of 1 to 64 bytes. [`Blake2b192`](crate::Blake2b192) is built on it.
//! There is no keyed hashing, salt, personalization, or tree mode.
use vstd::prelude::*;

use vstd::arithmetic::div_mod::lemma_fundamental_div_mod_converse;

use crate::lemmas::{lemma_absorb_blocks_push, lemma_absorb_split, lemma_counter_advance};
use crate::spec::{
    absorb, absorb_blocks, blake2b_state_bytes, compress as compress_spec, counter_hi, counter_lo,
    counter_value, final_h, init_work, initial_h, le_bytes, load_le64, mix, msg_words, pad_block,
    rotr, round, rounds, valid_digest_len, wadd, word_modulus, buffer_image, buffered_len,
    compressed_len, stale_block, state_buffer, state_chain, state_counter, BLOCK_LEN, IV, SIGMA,
};

verus! {

/// Rotates a word right by `n` bits.
fn rotr64(x: u64, n: u64) -> (r: u64)
    requires
        0 < n < 64,
    ensures
        r == rotr(x, n),
{
    (x >> n) | (x << (64 - n))
}

/// Addition of two words modulo 2^64.
fn add64(x: u64, y: u64) -> (r: u64)
    ensures
        r == wadd(x, y),
{
    x.wrapping_add(y)
}

/// The G mixing function (RFC 7693 §3.1): rotations 32, 24, 16, 63; all
/// additions mod 2^64.
fn g(v: &mut [u64; 16], a: usize, b: usize, c: usize, d: usize, x: u64, y: u64)
    requires
        a < 16,
        b < 16,
        c < 16,
        d < 16,
    ensures
        final(v)@ == mix(old(v)@, a as int, b as int, c as int, d as int, x, y),
{
    v[a] = add64(add64(v[a], v[b]), x);
    v[d] = rotr64(v[d] ^ v[a], 32);
    v[c] = add64(v[c], v[d]);
    v[b] = rotr64(v[b] ^ v[c], 24);
    v[a] = add64(add64(v[a], v[b]), y);
    v[d] = rotr64(v[d] ^ v[a], 16);
    v[c] = add64(v[c], v[d]);
    v[b] = rotr64(v[b] ^ v[c], 63);
}

/// Every entry of the message schedule indexes one of the sixteen words.
proof fn lemma_sigma_bounds(r: int)
    requires
        0 <= r < 10,
    ensures
        forall|k: int| 0 <= k < 16 ==> #[trigger] SIGMA[r][k] < 16,
{
}

/// The little-endian word at byte offset `off` of a block.
fn load_word(block: &[u8; BLOCK_LEN], off: usize) -> (w: u64)
    requires
        off + 8 <= BLOCK_LEN,
    ensures
        w == load_le64(block@, off as int),
{
    (block[off] as u64) | ((block[off + 1] as u64) << 8u64) | ((block[off + 2] as u64) << 16u64)
        | ((block[off + 3] as u64) << 24u64) | ((block[off + 4] as u64) << 32u64) | ((block[off
        + 5] as u64) << 40u64) | ((block[off + 6] as u64) << 48u64) | ((block[off + 7] as u64)
        << 56u64)
}

/// One round of the compression function on the working vector.
fn do_round(v: &mut [u64; 16], m: &[u64; 16], r: usize)
    requires
        r < 12,
    ensures
        final(v)@ == round(old(v)@, m@, r as int),
{
    let s = SIGMA[r % 10];
    proof {
        lemma_sigma_bounds(r as int % 10);
    }
    g(v, 0, 4, 8, 12, m[s[0]], m[s[1]]);
    g(v, 1, 5, 9, 13, m[s[2]], m[s[3]]);
    g(v, 2, 6, 10, 14, m[s[4]], m[s[5]]);
    g(v, 3, 7, 11, 15, m[s[6]], m[s[7]]);
    g(v, 0, 5, 10, 15, m[s[8]], m[s[9]]);
    g(v, 1, 6, 11, 12, m[s[10]], m[s[11]]);
    g(v, 2, 7, 8, 13, m[s[12]], m[s[13]]);
    g(v, 3, 4, 9, 14, m[s[14]], m[s[15]]);
}

/// The working vector at the start of compression.
fn init_vector(h: &[u64; 8], t_lo: u64, t_hi: u64, last: bool) -> (v: [u64; 16])
    ensures
        v@ == init_work(h@, t_lo, t_hi, last),
{
    let mut v = [
        h[0], h[1], h[2], h[3], h[4], h[5], h[6], h[7], IV[0], IV[1], IV[2], IV[3], IV[4], IV[5],
        IV[6], IV[7],
    ];
    assert(v@ =~= h@ + IV@);
    v[12] = v[12] ^ t_lo;
    v[13] = v[13] ^ t_hi;
    if last {
        v[14] = !v[14];
    }
    assert(v@ =~= init_work(h@, t_lo, t_hi, last));
    v
}

/// The sixteen little-endian message words of a block.
fn load_words(block: &[u8; BLOCK_LEN]) -> (m: [u64; 16])
    ensures
        m@ == msg_words(block@),
{
    let mut m = [0u64; 16];
    for i in 0..16
        invariant
            forall|j: int| 0 <= j < i ==> m@[j] == #[trigger] msg_words(block@)[j],
    {
        // Message words are read little-endian (RFC 7693 §2.3).
        m[i] = load_word(block, 8 * i);
    }
    assert(m@ =~= msg_words(block@));
    m
}

/// The compression function F (RFC 7693 §3.2).
///
/// `t_lo`/`t_hi` are the 128-bit byte counter including the bytes of this
/// block; `last` sets the final-block flag f0 (f1 is always zero: sequential
/// mode only).
fn compress(h: &mut [u64; 8], block: &[u8; BLOCK_LEN], t_lo: u64, t_hi: u64, last: bool)
    ensures
        final(h)@ == compress_spec(old(h)@, block@, t_lo, t_hi, last),
{
    let m = load_words(block);
    let mut v = init_vector(h, t_lo, t_hi, last);
    let ghost v0 = v@;
    for r in 0..12
        invariant
            v@ == rounds(v0, m@, r as nat),
    {
        do_round(&mut v, &m, r);
    }
    let ghost h0 = h@;
    for i in 0..8
        invariant
            h0 == old(h)@,
            forall|j: int| 0 <= j < i ==> h@[j] == h0[j] ^ (v@[j] ^ v@[j + 8]),
            forall|j: int| i <= j < 8 ==> h@[j] == h0[j],
    {
        h[i] ^= v[i] ^ v[i + 8];
    }
    assert(h@ =~= compress_spec(old(h)@, block@, t_lo, t_hi, last)) by {
        reveal(compress_spec);
    }
}

/// Adds `n` to the 128-bit byte counter held as its low and high words,
/// carrying into the high word; the counter wraps at 2^128.
pub fn counter_add(t_lo: u64, t_hi: u64, n: usize) -> (r: (u64, u64))
    ensures
        r.0 == counter_lo(counter_value(t_lo, t_hi) + n as nat),
        r.1 == counter_hi(counter_value(t_lo, t_hi) + n as nat),
{
    let n = n as u64;
    let lo = t_lo.wrapping_add(n);
    let hi = if lo < n {
        t_hi.wrapping_add(1)
    } else {
        t_hi
    };
    proof {
        let m = word_modulus();
        let v = counter_value(t_lo, t_hi);
        if t_lo + n < m {
            lemma_fundamental_div_mod_converse(v + n, m, t_hi as int, t_lo + n);
        } else {
            assert(v + n == (t_hi + 1) * m + (t_lo + n - m)) by (nonlinear_arith)
                requires
                    v == t_hi * m + t_lo,
            ;
            lemma_fundamental_div_mod_converse(v + n, m, t_hi + 1, t_lo + n - m);
        }
        lemma_fundamental_div_mod_converse(t_hi as int, m, 0, t_hi as int);
        lemma_fundamental_div_mod_converse(t_hi + 1, m, if t_hi + 1 == m { 1 } else { 0 }, if t_hi
            + 1 == m {
            0
        } else {
            t_hi + 1
        });
    }
    (lo, hi)
}

/// The engine's state. Its invariant ([`CoreState::wf`]) ties every field
/// to the message absorbed so far.
#[derive(Clone, Copy)]
struct CoreState {
    h: [u64; 8],
    /// 128-bit counter of message bytes fed to `compress` (low/high words).
    t_lo: u64,
    t_hi: u64,
    /// Lazy block buffer: may hold a full 128-byte block, which is only
    /// compressed once further input proves it is not the final block.
    buf: [u8; BLOCK_LEN],
    buf_len: usize,
    /// The digest length the state was initialized for.
    nn: Ghost<nat>,
    /// Every byte absorbed so far.
    msg: Ghost<Seq<u8>>,
}

impl CoreState {
    /// Number of absorbed bytes already compressed.
    closed spec fn compressed(&self) -> nat {
        (self.msg@.len() - self.buf_len) as nat
    }

    /// The state invariant: the buffer holds the last, not yet compressed,
    /// bytes of the message (a whole block at most, and at least one byte
    /// unless nothing was absorbed); everything before it, a whole number of
    /// blocks, has been compressed into `h` as non-final blocks, and the
    /// counter words count those bytes.
    closed spec fn wf(&self) -> bool {
        &&& self.wf_core()
        &&& (self.buf_len == 0 ==> self.msg@.len() == 0)
    }

    /// The state invariant, except that the buffer may be empty after
    /// bytes were absorbed (a transient state inside `update`).
    closed spec fn wf_core(&self) -> bool {
        &&& valid_digest_len(self.nn@ as int)
        &&& self.buf_len <= BLOCK_LEN
        &&& self.buf_len <= self.msg@.len()
        &&& self.compressed() % 128 == 0
        &&& self.buf@ == buffer_image(self.msg@, self.compressed())
        &&& self.h@ == absorb_blocks(
            initial_h(self.nn@),
            self.msg@.take(self.compressed() as int),
            0,
        )
        &&& self.t_lo == counter_lo(self.compressed())
        &&& self.t_hi == counter_hi(self.compressed())
    }

    /// A well-formed state is the one that the absorbed message determines.
    proof fn lemma_determined(&self)
        requires
            self.wf(),
        ensures
            self.buf_len == buffered_len(self.msg@.len()),
            self.compressed() == compressed_len(self.msg@.len()),
            self.h@ == state_chain(self.msg@, self.nn@),
            (self.t_lo, self.t_hi) == state_counter(self.msg@),
            self.buf@ == state_buffer(self.msg@),
    {
        let l = self.msg@.len();
        let c = self.compressed();
        if l > 0 {
            lemma_fundamental_div_mod_converse(l - 1, 128, c as int / 128, self.buf_len - 1);
        }
    }

    /// The buffer's first `buf_len` bytes are the pending end of the message.
    proof fn lemma_pending(&self)
        requires
            self.wf_core(),
        ensures
            self.buf@.take(self.buf_len as int) == self.msg@.skip(self.compressed() as int),
    {
        assert(self.buf@.take(self.buf_len as int) =~= self.msg@.skip(self.compressed() as int));
    }

    /// Initial state for unkeyed sequential BLAKE2b with `digest_len` output
    /// bytes.
    fn init(digest_len: u64) -> (r: Self)
        requires
            valid_digest_len(digest_len as int),
        ensures
            r.wf(),
            r.nn@ == digest_len,
            r.msg@ == Seq::<u8>::empty(),
    {
        let mut h = IV;
        h[0] = h[0] ^ (0x0101_0000u64 ^ digest_len);
        let r = CoreState {
            h,
            t_lo: 0,
            t_hi: 0,
            buf: [0u8; BLOCK_LEN],
            buf_len: 0,
            nn: Ghost(digest_len as nat),
            msg: Ghost(Seq::empty()),
        };
        assert(h@ =~= initial_h(digest_len as nat));
        assert(r.msg@.take(0) =~= Seq::<u8>::empty());
        assert(r.buf@ =~= buffer_image(r.msg@, 0));
        r
    }

    /// Adds `n` to the 128-bit byte counter, carrying into the high word.
    fn count(&mut self, n: usize)
        ensures
            final(self).t_lo == counter_lo(counter_value(old(self).t_lo, old(self).t_hi) + n as nat),
            final(self).t_hi == counter_hi(counter_value(old(self).t_lo, old(self).t_hi) + n as nat),
            final(self).h == old(self).h,
            final(self).buf == old(self).buf,
            final(self).buf_len == old(self).buf_len,
            final(self).nn == old(self).nn,
            final(self).msg == old(self).msg,
    {
        let (lo, hi) = counter_add(self.t_lo, self.t_hi, n);
        self.t_lo = lo;
        self.t_hi = hi;
    }

    /// Appends `input[pos..pos + take]` to the buffer, which has room for it.
    fn buffer_input(&mut self, input: &[u8], pos: usize, take: usize)
        requires
            old(self).wf_core(),
            take >= 1,
            old(self).buf_len + take <= BLOCK_LEN,
            pos + take <= input.len(),
        ensures
            final(self).wf_core(),
            final(self).buf_len == old(self).buf_len + take,
            final(self).nn == old(self).nn,
            final(self).msg@ == old(self).msg@ + input@.subrange(pos as int, pos + take),
    {
        let ghost old_buf = self.buf@;
        let start = self.buf_len;
        for j in 0..take
            invariant
                start == old(self).buf_len,
                start + take <= BLOCK_LEN,
                pos + take <= input.len(),
                self.buf_len == start,
                self.h == old(self).h,
                self.t_lo == old(self).t_lo,
                self.t_hi == old(self).t_hi,
                self.nn == old(self).nn,
                self.msg == old(self).msg,
                old_buf == old(self).buf@,
                forall|k: int| 0 <= k < start ==> self.buf@[k] == old_buf[k],
                forall|k: int| start + take <= k < BLOCK_LEN ==> self.buf@[k] == old_buf[k],
                forall|k: int| start <= k < start + j ==> self.buf@[k] == input@[pos + k - start],
        {
            self.buf[start + j] = input[pos + j];
        }
        self.buf_len = start + take;
        let ghost c = old(self).compressed();
        let ghost m = old(self).msg@;
        let ghost chunk = input@.subrange(pos as int, pos + take);
        self.msg = Ghost(self.msg@ + chunk);
        proof {
            let m2 = self.msg@;
            assert(self.compressed() == c);
            assert(m2.take(c as int) =~= m.take(c as int));
            assert(stale_block(m2, c) =~= stale_block(m, c));
            assert(self.buf@ =~= buffer_image(m2, c)) by {
                assert(old_buf == buffer_image(m, c));
                assert forall|k: int| 0 <= k < BLOCK_LEN implies #[trigger] self.buf@[k]
                    == buffer_image(m2, c)[k] by {
                    if k < start {
                        assert(old_buf[k] == m.skip(c as int)[k]);
                    } else if k >= start + take {
                        assert(old_buf[k] == stale_block(m, c).skip(m.len() - c)[k - start]);
                    }
                }
            }
        }
    }

    /// Compresses the full buffered block as a non-final block.
    fn compress_buffer(&mut self)
        requires
            old(self).wf_core(),
            old(self).buf_len == BLOCK_LEN,
        ensures
            final(self).wf_core(),
            final(self).buf_len == 0,
            final(self).nn == old(self).nn,
            final(self).msg == old(self).msg,
    {
        let ghost c = self.compressed();
        let ghost h0 = initial_h(self.nn@);
        proof {
            self.lemma_pending();
        }
        self.count(BLOCK_LEN);
        compress(&mut self.h, &self.buf, self.t_lo, self.t_hi, false);
        self.buf_len = 0;
        proof {
            let m = self.msg@;
            lemma_counter_advance(c, 128);
            assert(self.buf@.take(128) =~= self.buf@);
            assert(m.take(c as int) + self.buf@ =~= m);
            lemma_absorb_blocks_push(h0, m.take(c as int), self.buf@, 0);
            assert(self.compressed() == m.len());
            assert(m.take(m.len() as int) =~= m);
            assert(m.subrange(m.len() - 128, m.len() as int) =~= m.skip(c as int));
            assert(self.buf@ =~= buffer_image(m, m.len()));
        }
    }

    /// Absorbs more message bytes.
    fn update(&mut self, input: &[u8])
        requires
            old(self).wf(),
        ensures
            final(self).wf(),
            final(self).nn == old(self).nn,
            final(self).msg@ == old(self).msg@ + input@,
    {
        if input.len() == 0 {
            assert(self.msg@ + input@ =~= self.msg@);
            return;
        }
        let mut pos: usize = 0;
        // Top up a partially filled buffer first.
        if self.buf_len < BLOCK_LEN {
            let room = BLOCK_LEN - self.buf_len;
            let take = if room < input.len() {
                room
            } else {
                input.len()
            };
            self.buffer_input(input, 0, take);
            pos = take;
        }
        // While more input remains, the buffered block is full and provably
        // not the final one, so it can be compressed.
        while pos < input.len()
            invariant
                self.wf(),
                pos <= input.len(),
                self.nn == old(self).nn,
                self.msg@ == old(self).msg@ + input@.take(pos as int),
                pos < input.len() ==> self.buf_len == BLOCK_LEN,
            decreases input.len() - pos,
        {
            self.compress_buffer();
            let rest = input.len() - pos;
            let take = if BLOCK_LEN < rest {
                BLOCK_LEN
            } else {
                rest
            };
            self.buffer_input(input, pos, take);
            assert(input@.take(pos as int) + input@.subrange(pos as int, pos + take) =~= input@.take(
                pos + take,
            ));
            assert(old(self).msg@ + input@.take(pos as int) + input@.subrange(pos as int, pos + take)
                =~= old(self).msg@ + input@.take(pos + take));
            pos = pos + take;
        }
        assert(input@.take(pos as int) =~= input@);
    }

    /// Compresses the held final block (zero-padded, counter advanced by the
    /// exact number of buffered bytes, final-block flag set) and returns the
    /// full 64-byte little-endian serialization of the state.
    fn finalize(self) -> (out: [u8; 64])
        requires
            self.wf(),
        ensures
            out@ == blake2b_state_bytes(self.msg@, self.nn@),
    {
        let mut st = self;
        let ghost c = st.compressed();
        let ghost m = st.msg@;
        let ghost h0 = initial_h(st.nn@);
        let ghost tail = m.skip(c as int);
        proof {
            st.lemma_pending();
        }
        let buf_len = if st.buf_len < BLOCK_LEN {
            st.buf_len
        } else {
            BLOCK_LEN
        };
        st.count(buf_len);
        let ghost filled = st.buf@;
        let ghost counted = st;
        for j in buf_len..BLOCK_LEN
            invariant
                buf_len <= j <= BLOCK_LEN,
                st.buf_len == buf_len,
                st.h == counted.h,
                st.t_lo == counted.t_lo,
                st.t_hi == counted.t_hi,
                filled.len() == BLOCK_LEN,
                forall|k: int| 0 <= k < buf_len ==> st.buf@[k] == filled[k],
                forall|k: int| buf_len <= k < j ==> st.buf@[k] == 0,
        {
            st.buf[j] = 0;
        }
        proof {
            assert(st.buf@ =~= pad_block(tail)) by {
                assert(filled.take(buf_len as int) == tail);
                assert forall|k: int| 0 <= k < buf_len implies st.buf@[k] == tail[k] by {
                    assert(filled.take(buf_len as int)[k] == filled[k]);
                }
            }
        }
        compress(&mut st.h, &st.buf, st.t_lo, st.t_hi, true);
        proof {
            let hb = absorb_blocks(h0, m.take(c as int), 0);
            lemma_counter_advance(c, buf_len as nat);
            assert(tail.len() == buf_len);
            assert(m.take(c as int) + tail =~= m);
            lemma_absorb_split(h0, m.take(c as int), tail, 0);
            assert(absorb(hb, tail, c) == compress_spec(
                hb,
                pad_block(tail),
                counter_lo(c + buf_len as nat),
                counter_hi(c + buf_len as nat),
                true,
            ));
            assert(st.h@ == final_h(m, self.nn@));
        }
        serialize(&st.h)
    }
}

/// Unkeyed sequential BLAKE2b, parameterized at construction over the digest
/// length.
///
/// [`finalize`](Self::finalize) always returns the full 64-byte state
/// serialization; a digest of the length passed to [`new`](Self::new) is its
/// first `digest_len` bytes. Feed input with [`update`](Self::update) in any
/// number of chunks; empty calls are no-ops.
pub struct Blake2bCore {
    st: CoreState,
}

impl Blake2bCore {
    /// Every `Blake2bCore` is in the state that its absorbed message
    /// determines.
    #[verifier::type_invariant]
    closed spec fn inv(self) -> bool {
        self.st.wf()
    }

    /// The digest length the hasher was created for.
    pub closed spec fn digest_len(&self) -> nat {
        self.st.nn@
    }

    /// The message absorbed so far.
    pub closed spec fn message(&self) -> Seq<u8> {
        self.st.msg@
    }

    /// The current chaining value.
    pub closed spec fn chain(&self) -> Seq<u64> {
        self.st.h@
    }

    /// The current counter words (low, high).
    pub closed spec fn counter_words(&self) -> (u64, u64) {
        (self.st.t_lo, self.st.t_hi)
    }

    /// The 128-byte block buffer.
    pub closed spec fn buffer(&self) -> Seq<u8> {
        self.st.buf@
    }

    /// How many bytes of the buffer are pending (absorbed, not compressed).
    pub closed spec fn buffered_count(&self) -> nat {
        self.st.buf_len as nat
    }

    /// The hasher's whole state is the one its absorbed message determines:
    /// the chaining value after compressing every block but the last as a
    /// non-final block, the counter at the number of compressed bytes, and
    /// the last block (full or not) pending in the buffer.
    pub open spec fn holds_state_of_message(&self) -> bool {
        &&& valid_digest_len(self.digest_len() as int)
        &&& 1 <= self.digest_len() <= 64
        &&& self.chain() == state_chain(self.message(), self.digest_len())
        &&& self.counter_words() == state_counter(self.message())
        &&& self.buffer() == state_buffer(self.message())
        &&& self.buffered_count() == buffered_len(self.message().len())
    }

    /// Creates a hasher producing `digest_len` output bytes.
    ///
    /// Returns `Some` iff `digest_len` is 1..=64, the range BLAKE2b's
    /// parameter block admits.
    pub fn new(digest_len: usize) -> (r: Option<Self>)
        ensures
            r is Some <==> valid_digest_len(digest_len as int),
            r is Some <==> 1 <= digest_len <= 64,
            r matches Some(core) ==> {
                &&& core.digest_len() == digest_len
                &&& core.message() == Seq::<u8>::empty()
                &&& core.holds_state_of_message()
            },
    {
        if 1 <= digest_len && digest_len <= 64 {
            Some(Self::init(digest_len as u64))
        } else {
            None
        }
    }

    /// Initial state for unkeyed sequential BLAKE2b with `digest_len` output
    /// bytes: the parameter block has digest_length = `digest_len`,
    /// key_length = 0, fanout = 1, depth = 1, and every other field zero, so
    /// only the first parameter word `0x0101_0000 | digest_len` is nonzero.
    pub(crate) fn init(digest_len: u64) -> (r: Self)
        requires
            valid_digest_len(digest_len as int),
        ensures
            r.digest_len() == digest_len,
            r.message() == Seq::<u8>::empty(),
            r.holds_state_of_message(),
    {
        let st = CoreState::init(digest_len);
        proof {
            st.lemma_determined();
        }
        Blake2bCore { st }
    }

    /// The current chaining value.
    pub fn chaining_value(&self) -> (r: [u64; 8])
        ensures
            r@ == self.chain(),
            r@ == state_chain(self.message(), self.digest_len()),
    {
        proof {
            use_type_invariant(self);
            self.st.lemma_determined();
        }
        self.st.h
    }

    /// The current counter words (low, high).
    pub fn counter(&self) -> (r: (u64, u64))
        ensures
            r == self.counter_words(),
            r == state_counter(self.message()),
    {
        proof {
            use_type_invariant(self);
            self.st.lemma_determined();
        }
        (self.st.t_lo, self.st.t_hi)
    }

    /// Absorbs more message bytes; an empty input leaves the hasher as it
    /// was.
    pub fn update(&mut self, input: &[u8])
        ensures
            final(self).digest_len() == old(self).digest_len(),
            final(self).message() == old(self).message() + input@,
            final(self).holds_state_of_message(),
            input@.len() == 0 ==> *final(self) == *old(self),
    {
        proof {
            use_type_invariant(&*self);
            self.st.lemma_determined();
        }
        if input.len() == 0 {
            assert(self.st.msg@ + input@ =~= self.st.msg@);
            return;
        }
        let mut st = self.st;
        st.update(input);
        proof {
            st.lemma_determined();
        }
        self.st = st;
    }

    /// Compresses the held final block (zero-padded, counter advanced by the
    /// exact number of buffered bytes, final-block flag set) and returns the
    /// full 64-byte little-endian serialization of the state; a digest of
    /// length `nn` is its first `nn` bytes. An empty message compresses one
    /// all-zero block with the counter at zero (RFC 7693 §3.3, dd = 1).
    pub fn finalize(self) -> (out: [u8; 64])
        ensures
            out@ == blake2b_state_bytes(self.message(), self.digest_len()),
    {
        proof {
            use_type_invariant(&self);
        }
        self.st.finalize()
    }
}

/// The engine's state is a function of the digest length and the absorbed
/// message: two engines at the same digest length that hold the same
/// message are equal, field for field (chaining value, counter, buffer and
/// its fill), however the message was split across updates.
pub proof fn law_state_determined_by_message(a: Blake2bCore, b: Blake2bCore)
    requires
        a.holds_state_of_message(),
        b.holds_state_of_message(),
        a.digest_len() == b.digest_len(),
        a.message() == b.message(),
    ensures
        a == b,
{
    assert(a.st.h =~= b.st.h);
    assert(a.st.buf =~= b.st.buf);
    assert(a.st.nn == b.st.nn);
    assert(a.st.msg == b.st.msg);
    assert(a.st == b.st);
}

/// The 64-byte little-endian serialization of the chaining value.
fn serialize(h: &[u64; 8]) -> (out: [u8; 64])
    ensures
        out@ == le_bytes(h@),
{
    let mut out = [0u8; 64];
    for i in 0..8
        invariant
            forall|j: int| 0 <= j < 8 * i ==> out@[j] == #[trigger] le_bytes(h@)[j],
    {
        let w = h[i];
        for k in 0..8
            invariant
                i < 8,
                w == h@[i as int],
                forall|j: int| 0 <= j < 8 * i + k ==> out@[j] == #[trigger] le_bytes(h@)[j],
        {
            out[8 * i + k] = (w >> (8 * k as u64)) as u8;
            proof {
                let j = 8 * i + k;
                lemma_fundamental_div_mod_converse(j as int, 8, i as int, k as int);
            }
        }
    }
    assert(out@ =~= le_bytes(h@));
    out
}

} // verus!
